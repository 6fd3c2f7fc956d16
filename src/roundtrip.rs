//! Lemmas on the canonical forms of absolute paths, and on reading one
//! stack of components after another, behind the round trip of
//! `relative_to` and `join`.

use vstd::prelude::*;

use crate::lexical::{
    dot, dot_dot, ends_with_sep, join_all, lemma_join_last, lemma_resolve_stack_normal,
    lemma_split_join, lemma_split_no_sep, marked_stack, no_sep, normal_stack, resolve,
    resolve_stack, split, step, trim_all_seps,
};
use crate::path::rel_parts;

verus! {

/// Whether `c` is an ordinary component: not empty, not `.` or `..`, and
/// without a separator.
pub open spec fn ordinary(c: Seq<char>) -> bool {
    c.len() > 0 && c != dot() && c != dot_dot() && no_sep(c)
}

/// The stack after reading the components `cs` onto `st`.
pub open spec fn run(st: Seq<Seq<char>>, cs: Seq<Seq<char>>) -> Seq<Seq<char>>
    decreases cs.len(),
{
    if cs.len() == 0 {
        st
    } else {
        step(run(st, cs.drop_last()), cs.last())
    }
}

/// `k` copies of `..`.
pub open spec fn dots(k: nat) -> Seq<Seq<char>> {
    Seq::new(k, |i: int| dot_dot())
}

pub proof fn lemma_run_empty(cs: Seq<Seq<char>>)
    ensures
        resolve_stack(cs) == run(Seq::empty(), cs),
    decreases cs.len(),
{
    if cs.len() > 0 {
        lemma_run_empty(cs.drop_last());
    }
}

pub proof fn lemma_run_concat(st: Seq<Seq<char>>, x: Seq<Seq<char>>, y: Seq<Seq<char>>)
    ensures
        run(st, x + y) == run(run(st, x), y),
    decreases y.len(),
{
    if y.len() == 0 {
        assert(x + y =~= x);
    } else {
        lemma_run_concat(st, x, y.drop_last());
        assert((x + y).drop_last() =~= x + y.drop_last());
        assert((x + y).last() == y.last());
    }
}

/// Real components are pushed as they come.
pub proof fn lemma_run_reals(st: Seq<Seq<char>>, q: Seq<Seq<char>>)
    requires
        forall|i: int| 0 <= i < q.len() ==> ordinary(#[trigger] q[i]),
    ensures
        run(st, q) == st + q,
    decreases q.len(),
{
    if q.len() == 0 {
        assert(st + q =~= st);
    } else {
        let q0 = q.drop_last();
        assert forall|i: int| 0 <= i < q0.len() implies ordinary(#[trigger] q0[i]) by {
            assert(q0[i] == q[i]);
        }
        lemma_run_reals(st, q0);
        let c = q.last();
        assert(ordinary(q[q.len() - 1]));
        assert(c.len() != 0);
        assert((st + q0).push(c) =~= st + q);
    }
}

/// Each `..` read onto real components takes one of them away.
pub proof fn lemma_run_dots(a: Seq<Seq<char>>, k: nat)
    requires
        k < a.len(),
        forall|i: int| a.len() - k <= i < a.len() ==> ordinary(#[trigger] a[i]),
    ensures
        run(a, dots(k)) == a.subrange(0, a.len() - k),
    decreases k,
{
    if k == 0 {
        assert(a.subrange(0, a.len() as int) =~= a);
        assert(dots(0).len() == 0);
    } else {
        lemma_run_dots(a, (k - 1) as nat);
        assert(dots(k).drop_last() =~= dots((k - 1) as nat));
        assert(dots(k).last() == dot_dot());
        let pre = a.subrange(0, a.len() - k + 1);
        assert(pre.last() == a[a.len() - k]);
        assert(ordinary(a[a.len() - k]));
        assert(pre.drop_last() =~= a.subrange(0, a.len() - k));
    }
}

pub proof fn lemma_join_concat(x: Seq<Seq<char>>, y: Seq<Seq<char>>)
    requires
        x.len() >= 1,
        y.len() >= 1,
    ensures
        join_all(x + y) == join_all(x) + seq!['/'] + join_all(y),
    decreases y.len(),
{
    if y.len() == 1 {
        assert((x + y).drop_last() =~= x);
        assert((x + y).last() == y[0]);
    } else {
        let y0 = y.drop_last();
        lemma_join_concat(x, y0);
        assert((x + y).drop_last() =~= x + y0);
        assert((x + y).last() == y.last());
        assert(join_all(x + y) =~= join_all(x) + seq!['/'] + join_all(y));
    }
}

pub proof fn lemma_join_first(cs: Seq<Seq<char>>)
    requires
        cs.len() >= 1,
        cs[0].len() > 0,
    ensures
        join_all(cs).len() > 0,
        join_all(cs)[0] == cs[0][0],
    decreases cs.len(),
{
    if cs.len() > 1 {
        assert(cs.drop_last()[0] == cs[0]);
        lemma_join_first(cs.drop_last());
    }
}

/// A path that starts with `/` splits into an empty first component and at
/// least one more.
pub proof fn lemma_split_absolute(s: Seq<char>)
    requires
        s.len() >= 1,
        s[0] == '/',
    ensures
        split(s).len() >= 2,
        split(s)[0].len() == 0,
    decreases s.len(),
{
    let e = Seq::<char>::empty();
    if s.len() == 1 {
        assert(s.drop_last() =~= e);
        assert(split(e) == seq![e]);
        assert(s.last() == '/');
    } else {
        assert(s.drop_last()[0] == '/');
        lemma_split_absolute(s.drop_last());
    }
}

/// Reading components that start with the empty one keeps it at the bottom.
pub proof fn lemma_stack_absolute(cs: Seq<Seq<char>>)
    requires
        cs.len() >= 1,
        cs[0].len() == 0,
    ensures
        resolve_stack(cs).len() >= 1,
        resolve_stack(cs)[0].len() == 0,
    decreases cs.len(),
{
    let e = Seq::<char>::empty();
    assert(e != dot_dot() && e != dot()) by {
        assert(dot_dot().len() == 2);
        assert(dot().len() == 1);
    }
    if cs.len() == 1 {
        assert(cs.drop_last() =~= Seq::<Seq<char>>::empty());
        assert(cs.last() =~= e);
        assert(resolve_stack(Seq::<Seq<char>>::empty()) == Seq::<Seq<char>>::empty());
        assert(resolve_stack(cs) == step(resolve_stack(cs.drop_last()), cs.last()));
        assert(resolve_stack(cs) == step(Seq::<Seq<char>>::empty(), e));
        assert(Seq::<Seq<char>>::empty().push(e)[0] == e);
    } else {
        let pre = cs.drop_last();
        assert(pre[0] == cs[0]);
        lemma_stack_absolute(pre);
        let st = resolve_stack(pre);
        if st.len() == 1 {
            assert(st.last() == st[0]);
        }
    }
}

pub proof fn lemma_no_dot_dot_at(st: Seq<Seq<char>>, i: int)
    requires
        normal_stack(st),
        st.len() >= 1,
        st[0].len() == 0,
        0 <= i < st.len(),
    ensures
        st[i] != dot_dot(),
    decreases i,
{
    assert(no_sep(st[i]));
    if i == 0 {
        assert(dot_dot().len() == 2);
    } else {
        lemma_no_dot_dot_at(st, i - 1);
    }
}

/// The shape of a canonical absolute path: the empty root component, then
/// real components, joined, with a separator at the end where the path has
/// one (always for the root).
pub proof fn lemma_canonical_absolute(a: Seq<char>)
    requires
        resolve(a) == a,
        a.len() >= 1,
        a[0] == '/',
    ensures
        rel_parts(a).len() >= 1,
        rel_parts(a)[0].len() == 0,
        normal_stack(rel_parts(a)),
        forall|i: int| 1 <= i < rel_parts(a).len() ==> ordinary(#[trigger] rel_parts(a)[i]),
        trim_all_seps(a) == join_all(rel_parts(a)),
        a == join_all(rel_parts(a)) + if ends_with_sep(a) {
            seq!['/']
        } else {
            Seq::<char>::empty()
        },
        rel_parts(a).len() == 1 ==> ends_with_sep(a),
{
    let e = Seq::<char>::empty();
    lemma_split_no_sep(a);
    lemma_resolve_stack_normal(split(a));
    lemma_split_absolute(a);
    lemma_stack_absolute(split(a));
    let st = resolve_stack(split(a));
    let m = marked_stack(a);
    assert forall|i: int| 1 <= i < st.len() implies ordinary(#[trigger] st[i]) by {
        assert(no_sep(st[i]));
        lemma_no_dot_dot_at(st, i);
    }
    assert forall|i: int| 0 <= i < st.len() implies no_sep(#[trigger] st[i]) by {}
    if m == seq![e] {
        assert(a == seq!['/']);
        assert(ends_with_sep(a));
        assert(m.len() >= 2);
    }
    assert(a == join_all(m));
    let j = join_all(st);
    if st.len() >= 2 {
        assert(ordinary(st[st.len() - 1]));
        lemma_join_last(st);
        assert(no_sep(st.last()));
        assert(!ends_with_sep(j));
    } else {
        assert(st =~= seq![st[0]]);
        assert(j == st[0]);
        assert(j.len() == 0);
    }
    lemma_split_join(st);
    if ends_with_sep(a) {
        assert(m.drop_last() =~= st);
        assert(a == j + seq!['/'] + e);
        assert(a =~= j + seq!['/']);
        assert(a.drop_last() =~= j);
        assert(trim_all_seps(a) == trim_all_seps(j));
    } else {
        assert(m == st);
        if st.len() == 1 {
            assert(a.len() == 0);
        }
        assert(a =~= j + e);
    }
    assert(trim_all_seps(j) == j);
    assert(rel_parts(a) == st);
}

/// `.` resolves to the empty path.
pub proof fn lemma_resolve_dot()
    ensures
        resolve(dot()) == Seq::<char>::empty(),
{
    let e = Seq::<char>::empty();
    let d = dot();
    assert(d.drop_last() =~= e);
    assert(split(e) == seq![e]);
    assert(seq![e].update(0, e.push('.')) =~= seq![d]);
    assert(split(d) == seq![d]);
    assert(seq![d].drop_last() =~= Seq::<Seq<char>>::empty());
    assert(d != dot_dot()) by {
        assert(dot_dot().len() == 2);
    }
    assert(resolve_stack(Seq::<Seq<char>>::empty()) == Seq::<Seq<char>>::empty());
    assert(seq![d].last() == d);
    assert(resolve_stack(seq![d]) == step(resolve_stack(seq![d].drop_last()), d));
    assert(resolve_stack(seq![d]) == step(Seq::<Seq<char>>::empty(), d));
    assert(marked_stack(d) =~= Seq::<Seq<char>>::empty());
    assert(seq![e].len() == 1);
}

} // verus!
