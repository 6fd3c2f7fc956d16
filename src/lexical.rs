//! The lexical model of paths: splitting on the separator, resolving `.`
//! and `..` against a stack of components, and joining the stack back.

use vstd::prelude::*;

verus! {

/// The component `.`.
pub open spec fn dot() -> Seq<char> {
    seq!['.']
}

/// The component `..`.
pub open spec fn dot_dot() -> Seq<char> {
    seq!['.', '.']
}

/// The components of `s` between separators; `s` split on `/`.
/// The empty string has one empty component.
pub open spec fn split(s: Seq<char>) -> Seq<Seq<char>>
    decreases s.len(),
{
    if s.len() == 0 {
        seq![Seq::<char>::empty()]
    } else {
        let pre = split(s.drop_last());
        if s.last() == '/' {
            pre.push(Seq::<char>::empty())
        } else {
            pre.update(pre.len() - 1, pre.last().push(s.last()))
        }
    }
}

/// One step of resolution: the stack after component `c` is read.
pub open spec fn step(st: Seq<Seq<char>>, c: Seq<char>) -> Seq<Seq<char>> {
    if c == dot_dot() {
        if st.len() > 0 && st.last().len() == 0 {
            st
        } else if st.len() > 0 && st.last() != dot_dot() {
            st.drop_last()
        } else {
            st.push(dot_dot())
        }
    } else if c == dot() {
        st
    } else if c.len() == 0 {
        if st.len() == 0 {
            st.push(c)
        } else {
            st
        }
    } else {
        st.push(c)
    }
}

/// The stack left after reading the components `cs` from left to right.
pub open spec fn resolve_stack(cs: Seq<Seq<char>>) -> Seq<Seq<char>>
    decreases cs.len(),
{
    if cs.len() == 0 {
        Seq::empty()
    } else {
        step(resolve_stack(cs.drop_last()), cs.last())
    }
}

/// The components `cs` joined with `/` between them.
pub open spec fn join_all(cs: Seq<Seq<char>>) -> Seq<char>
    decreases cs.len(),
{
    if cs.len() == 0 {
        Seq::empty()
    } else if cs.len() == 1 {
        cs[0]
    } else {
        join_all(cs.drop_last()) + seq!['/'] + cs.last()
    }
}

/// The stack of `s` with the trailing-separator marker added.
pub open spec fn marked_stack(s: Seq<char>) -> Seq<Seq<char>> {
    let st = resolve_stack(split(s));
    if s.len() > 0 && s.last() == '/' {
        st.push(Seq::<char>::empty())
    } else {
        st
    }
}

/// The canonical form of `s`.
pub open spec fn resolve(s: Seq<char>) -> Seq<char> {
    if s.len() == 0 {
        Seq::empty()
    } else if marked_stack(s) == seq![Seq::<char>::empty()] {
        seq!['/']
    } else {
        join_all(marked_stack(s))
    }
}

pub proof fn lemma_split_nonempty(s: Seq<char>)
    ensures
        split(s).len() >= 1,
    decreases s.len(),
{
    if s.len() > 0 {
        lemma_split_nonempty(s.drop_last());
    }
}


/// The position of the last `c` in `t`, or -1 where there is none.
pub open spec fn last_index(t: Seq<char>, c: char) -> int
    decreases t.len(),
{
    if t.len() == 0 {
        -1
    } else if t.last() == c {
        t.len() - 1
    } else {
        last_index(t.drop_last(), c)
    }
}

/// Whether `s` ends with the separator.
pub open spec fn ends_with_sep(s: Seq<char>) -> bool {
    s.len() > 0 && s.last() == '/'
}

/// `s` without one trailing separator.
pub open spec fn trim_sep(s: Seq<char>) -> Seq<char> {
    if ends_with_sep(s) {
        s.drop_last()
    } else {
        s
    }
}

/// `s` without any trailing separators.
pub open spec fn trim_all_seps(s: Seq<char>) -> Seq<char>
    decreases s.len(),
{
    if ends_with_sep(s) {
        trim_all_seps(s.drop_last())
    } else {
        s
    }
}

/// Where the last component of `t` starts.
pub open spec fn base_start(t: Seq<char>) -> int {
    last_index(t, '/') + 1
}

/// The compound suffix that counts as one extension.
pub open spec fn dts() -> Seq<char> {
    seq!['.', 'd', '.', 't', 's']
}

pub proof fn lemma_join_prefix(w: Seq<Seq<char>>, j: int)
    requires
        0 <= j < w.len(),
    ensures
        join_all(w.subrange(0, j + 1)) == if j == 0 {
            w[0]
        } else {
            join_all(w.subrange(0, j)) + seq!['/'] + w[j]
        },
{
    let v = w.subrange(0, j + 1);
    assert(v.drop_last() =~= w.subrange(0, j));
}


/// Whether `c` holds no separator.
pub open spec fn no_sep(c: Seq<char>) -> bool {
    forall|j: int| 0 <= j < c.len() ==> c[j] != '/'
}

/// Whether `st` is a stack that resolution can leave: no component holds a
/// separator or is `.`, only the first may be empty (the root), and `..`
/// only stands in a run at the start.
pub open spec fn normal_stack(st: Seq<Seq<char>>) -> bool {
    forall|i: int|
        0 <= i < st.len() ==> {
            &&& no_sep(#[trigger] st[i])
            &&& st[i] != dot()
            &&& st[i].len() == 0 ==> i == 0
            &&& st[i] == dot_dot() ==> (i == 0 || st[i - 1] == dot_dot())
        }
}

pub proof fn lemma_split_no_sep(s: Seq<char>)
    ensures
        split(s).len() >= 1,
        forall|i: int| 0 <= i < split(s).len() ==> no_sep(#[trigger] split(s)[i]),
    decreases s.len(),
{
    if s.len() > 0 {
        lemma_split_no_sep(s.drop_last());
        let pre = split(s.drop_last());
        if s.last() != '/' {
            let l = pre.last().push(s.last());
            assert(no_sep(l));
        }
    }
}

pub proof fn lemma_step_normal(st: Seq<Seq<char>>, c: Seq<char>)
    requires
        normal_stack(st),
        no_sep(c),
    ensures
        normal_stack(step(st, c)),
{
    let r = step(st, c);
    if c == dot_dot() {
        if st.len() > 0 && st.last().len() == 0 {
        } else if st.len() > 0 && st.last() != dot_dot() {
            assert forall|i: int| 0 <= i < r.len() implies #[trigger] r[i] == st[i] by {}
        } else {
            assert forall|i: int| 0 <= i < r.len() implies {
                &&& no_sep(#[trigger] r[i])
                &&& r[i] != dot()
                &&& r[i].len() == 0 ==> i == 0
                &&& r[i] == dot_dot() ==> (i == 0 || r[i - 1] == dot_dot())
            } by {
                if i == st.len() {
                    assert(r[i] == dot_dot());
                    assert(dot_dot() != dot()) by {
                        assert(dot_dot().len() != dot().len());
                    }
                } else {
                    assert(r[i] == st[i]);
                }
            }
        }
    } else if c == dot() {
    } else if c.len() == 0 {
        if st.len() == 0 {
            assert(r =~= seq![c]);
            assert(c != dot()) by {
                assert(c.len() != dot().len());
            }
        }
    } else {
        assert forall|i: int| 0 <= i < r.len() implies {
            &&& no_sep(#[trigger] r[i])
            &&& r[i] != dot()
            &&& r[i].len() == 0 ==> i == 0
            &&& r[i] == dot_dot() ==> (i == 0 || r[i - 1] == dot_dot())
        } by {
            if i < st.len() {
                assert(r[i] == st[i]);
            }
        }
    }
}

pub proof fn lemma_resolve_stack_normal(cs: Seq<Seq<char>>)
    requires
        forall|i: int| 0 <= i < cs.len() ==> no_sep(#[trigger] cs[i]),
    ensures
        normal_stack(resolve_stack(cs)),
    decreases cs.len(),
{
    if cs.len() > 0 {
        let pre = cs.drop_last();
        assert forall|i: int| 0 <= i < pre.len() implies no_sep(#[trigger] pre[i]) by {
            assert(pre[i] == cs[i]);
        }
        lemma_resolve_stack_normal(pre);
        lemma_step_normal(resolve_stack(pre), cs.last());
    }
}

/// Reading a normal stack gives it back.
pub proof fn lemma_resolve_stack_fixed(st: Seq<Seq<char>>)
    requires
        normal_stack(st),
    ensures
        resolve_stack(st) == st,
    decreases st.len(),
{
    if st.len() > 0 {
        let pre = st.drop_last();
        assert(normal_stack(pre)) by {
            assert forall|i: int| 0 <= i < pre.len() implies #[trigger] pre[i] == st[i] by {}
        }
        lemma_resolve_stack_fixed(pre);
        let i = st.len() - 1;
        let c = st.last();
        assert(st[i] == c);
        if c == dot_dot() {
            if i > 0 {
                assert(pre.last() == st[i - 1]);
                assert(dot_dot().len() == 2);
            }
        } else if c.len() == 0 {
            assert(i == 0);
            assert(c != dot_dot()) by {
                assert(dot_dot().len() == 2);
            }
            assert(c != dot()) by {
                assert(dot().len() == 1);
            }
        }
        assert(pre.push(c) =~= st);
    }
}

/// Splitting after characters that hold no separator extends the last
/// component.
pub proof fn lemma_split_append(s: Seq<char>, t: Seq<char>)
    requires
        no_sep(t),
    ensures
        split(s + t) == split(s).update(split(s).len() - 1, split(s).last() + t),
    decreases t.len(),
{
    lemma_split_nonempty(s);
    if t.len() == 0 {
        assert(s + t =~= s);
        assert(split(s).last() + t =~= split(s).last());
        assert(split(s).update(split(s).len() - 1, split(s).last()) =~= split(s));
    } else {
        let t0 = t.drop_last();
        assert(no_sep(t0));
        lemma_split_append(s, t0);
        assert((s + t).drop_last() =~= s + t0);
        assert((s + t).last() == t.last());
        let pre = split(s + t0);
        assert(pre.last() == split(s).last() + t0);
        assert(pre.last().push(t.last()) =~= split(s).last() + t);
        assert(pre.update(pre.len() - 1, pre.last().push(t.last())) =~= split(s).update(
            split(s).len() - 1,
            split(s).last() + t,
        ));
    }
}

/// Splitting components joined with `/` gives them back.
pub proof fn lemma_split_join(cs: Seq<Seq<char>>)
    requires
        cs.len() >= 1,
        forall|i: int| 0 <= i < cs.len() ==> no_sep(#[trigger] cs[i]),
    ensures
        split(join_all(cs)) == cs,
    decreases cs.len(),
{
    let e = Seq::<char>::empty();
    if cs.len() == 1 {
        lemma_split_append(e, cs[0]);
        assert(e + cs[0] =~= cs[0]);
        assert(split(e) == seq![e]);
        assert(e + cs[0] =~= cs[0]);
        assert(seq![e].update(0, cs[0]) =~= cs);
    } else {
        let pre = cs.drop_last();
        assert forall|i: int| 0 <= i < pre.len() implies no_sep(#[trigger] pre[i]) by {
            assert(pre[i] == cs[i]);
        }
        lemma_split_join(pre);
        let a = join_all(pre);
        let a1 = a + seq!['/'];
        assert(a1.drop_last() =~= a);
        assert(split(a1) == split(a).push(e));
        lemma_split_append(a1, cs.last());
        assert(join_all(cs) == a1 + cs.last());
        assert(split(a).push(e).update(cs.len() - 1, e + cs.last()) =~= cs) by {
            assert(e + cs.last() =~= cs.last());
        }
    }
}

/// The last character of components joined, where the last component is
/// not empty.
pub proof fn lemma_join_last(cs: Seq<Seq<char>>)
    requires
        cs.len() >= 1,
        cs.last().len() > 0,
    ensures
        join_all(cs).len() > 0,
        join_all(cs).last() == cs.last().last(),
{
    if cs.len() > 1 {
        let j = join_all(cs.drop_last()) + seq!['/'] + cs.last();
        assert(j.last() == cs.last().last());
    }
}

/// The stack of a path: its components read, with the trailing-separator
/// marker where the path ends with `/`.
pub proof fn lemma_marked_stack_normal_shape(s: Seq<char>)
    ensures
        normal_stack(resolve_stack(split(s))),
        forall|i: int|
            0 <= i < marked_stack(s).len() ==> no_sep(#[trigger] marked_stack(s)[i]),
{
    lemma_split_no_sep(s);
    lemma_resolve_stack_normal(split(s));
    let st = resolve_stack(split(s));
    let m = marked_stack(s);
    assert forall|i: int| 0 <= i < m.len() implies no_sep(#[trigger] m[i]) by {
        if i < st.len() {
            assert(m[i] == st[i]);
        } else {
            assert(m[i] == Seq::<char>::empty());
        }
    }
}

/// Joining a normal stack whose last component is real, with or without
/// the trailing-separator marker, gives a canonical form.
pub proof fn lemma_resolve_join_fixed(st: Seq<Seq<char>>, t: bool)
    requires
        normal_stack(st),
        st.len() >= 1,
        st.last().len() > 0,
    ensures
        ({
            let m = if t {
                st.push(Seq::<char>::empty())
            } else {
                st
            };
            resolve(join_all(m)) == join_all(m)
        }),
{
    let e = Seq::<char>::empty();
    let m = if t {
        st.push(e)
    } else {
        st
    };
    let y = join_all(m);
    assert forall|i: int| 0 <= i < m.len() implies no_sep(#[trigger] m[i]) by {
        if i < st.len() {
            assert(m[i] == st[i]);
        } else {
            assert(m[i] == e);
        }
    }
    lemma_resolve_stack_fixed(st);
    lemma_split_join(m);
    lemma_join_last(st);
    assert(no_sep(st.last()));
    assert(st.last().last() != '/');
    if t {
        assert(m.drop_last() =~= st);
        assert(y == join_all(st) + seq!['/'] + e);
        assert(y.last() == '/');
        assert(split(y).drop_last() =~= st);
        assert(split(y).last() == e);
        assert(resolve_stack(split(y)) == step(st, e));
        assert(e != dot_dot() && e != dot()) by {
            assert(dot_dot().len() == 2);
            assert(dot().len() == 1);
        }
        assert(step(st, e) == st);
        assert(marked_stack(y) == m);
        assert(m.len() >= 2);
    } else {
        assert(!ends_with_sep(y));
        assert(marked_stack(y) == st);
        if st.len() == 1 {
            assert(st[0] != e);
        }
        assert(m != seq![e]);
    }
}

/// Resolving a canonical form changes nothing.
pub proof fn lemma_resolve_idempotent(x: Seq<char>)
    ensures
        resolve(resolve(x)) == resolve(x),
{
    let e = Seq::<char>::empty();
    lemma_resolve_root_fixed();
    if x.len() == 0 {
        return;
    }
    lemma_marked_stack_normal_shape(x);
    let st = resolve_stack(split(x));
    let m = marked_stack(x);
    if m == seq![e] {
        return;
    }
    let y = join_all(m);
    assert(resolve(x) == y);
    if st.len() == 0 {
        if ends_with_sep(x) {
            assert(m =~= seq![e]);
        } else {
            assert(y.len() == 0);
        }
        return;
    }
    if st =~= seq![e] {
        if ends_with_sep(x) {
            assert(m =~= seq![e, e]);
            assert(seq![e, e].drop_last() =~= seq![e]);
            assert(join_all(seq![e]) == e);
            assert(seq![e, e].last() == e);
            assert(y == join_all(seq![e]) + seq!['/'] + e);
            assert(y =~= seq!['/']);
        }
        return;
    }
    assert(st.last().len() > 0) by {
        if st.last().len() == 0 {
            let i = st.len() - 1;
            assert(no_sep(st[i]));
            assert(i == 0);
            assert(st[0] =~= e);
            assert(st =~= seq![e]);
        }
    }
    lemma_resolve_join_fixed(st, ends_with_sep(x));
}

/// The root is canonical.
pub proof fn lemma_resolve_root_fixed()
    ensures
        resolve(seq!['/']) == seq!['/'],
{
    let s = seq!['/'];
    let e = Seq::<char>::empty();
    assert(s.drop_last() =~= e);
    assert(split(e) == seq![e]);
    assert(s.last() == '/');
    assert(seq![e].push(e) =~= seq![e, e]);
    assert(split(s) == seq![e, e]);
    let sp = split(s);
    assert(sp.drop_last() =~= seq![e]);
    assert(seq![e].drop_last() =~= Seq::<Seq<char>>::empty());
    assert(e.len() != dot_dot().len());
    assert(e.len() != dot().len());
    assert(resolve_stack(Seq::<Seq<char>>::empty()) == Seq::<Seq<char>>::empty());
    assert(Seq::<Seq<char>>::empty().push(e) =~= seq![e]);
    assert(resolve_stack(seq![e]) == seq![e]);
    assert(resolve_stack(sp) == seq![e]);
    assert(marked_stack(s) == seq![e, e]);
    assert(seq![e, e] != seq![e]);
    assert(seq![e, e].drop_last() =~= seq![e]);
    assert(join_all(seq![e]) == e);
    assert(seq![e, e].last() == e);
    assert(join_all(seq![e, e]) == join_all(seq![e]) + seq!['/'] + e);
    assert(e + seq!['/'] + e =~= seq!['/']);
}

} // verus!
