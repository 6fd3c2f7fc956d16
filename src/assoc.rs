//! Lemmas on reading relative components onto an absolute stack, behind the
//! association of `join` on an absolute base.

use vstd::prelude::*;

use crate::lexical::{
    dot, dot_dot, ends_with_sep, join_all, lemma_resolve_stack_fixed,
    lemma_split_join, lemma_step_normal, marked_stack, no_sep, normal_stack, resolve,
    resolve_stack, split, step,
};
use crate::path::{spec_is_absolute, spec_join};
use crate::roundtrip::{lemma_join_concat, lemma_run_concat, lemma_run_empty, run};

verus! {

/// The stack of an absolute path: normal, with the empty root component
/// at the bottom.
pub open spec fn abs_stack(s: Seq<Seq<char>>) -> bool {
    normal_stack(s) && s.len() >= 1 && s[0].len() == 0
}

/// The stack of a relative path: normal, with no empty component.
pub open spec fn rel_stack(t: Seq<Seq<char>>) -> bool {
    normal_stack(t) && forall|i: int| 0 <= i < t.len() ==> (#[trigger] t[i]).len() > 0
}

/// Components that are neither empty nor hold a separator.
pub open spec fn filled(x: Seq<Seq<char>>) -> bool {
    forall|i: int| 0 <= i < x.len() ==> (#[trigger] x[i]).len() > 0 && no_sep(x[i])
}

/// What resolution writes for the stack `st`, with the trailing-separator
/// marker where `t` holds.
pub open spec fn render(st: Seq<Seq<char>>, t: bool) -> Seq<char> {
    let m = if t {
        st.push(Seq::<char>::empty())
    } else {
        st
    };
    if m == seq![Seq::<char>::empty()] {
        seq!['/']
    } else {
        join_all(m)
    }
}

pub proof fn lemma_step_abs(s: Seq<Seq<char>>, c: Seq<char>)
    requires
        abs_stack(s),
        no_sep(c),
    ensures
        abs_stack(step(s, c)),
{
    lemma_step_normal(s, c);
    if c == dot_dot() && s.len() > 0 && s.last().len() != 0 && s.last() != dot_dot() {
        assert(s.len() >= 2);
    }
    if s.len() >= 1 {
        assert(step(s, c).len() >= 1);
        assert(step(s, c)[0] == s[0]);
    }
}

pub proof fn lemma_run_abs(s: Seq<Seq<char>>, x: Seq<Seq<char>>)
    requires
        abs_stack(s),
        forall|i: int| 0 <= i < x.len() ==> no_sep(#[trigger] x[i]),
    ensures
        abs_stack(run(s, x)),
    decreases x.len(),
{
    if x.len() > 0 {
        let x0 = x.drop_last();
        assert forall|i: int| 0 <= i < x0.len() implies no_sep(#[trigger] x0[i]) by {
            assert(x0[i] == x[i]);
        }
        lemma_run_abs(s, x0);
        assert(no_sep(x[x.len() - 1]));
        lemma_step_abs(run(s, x0), x.last());
    }
}

pub proof fn lemma_step_rel(t: Seq<Seq<char>>, c: Seq<char>)
    requires
        rel_stack(t),
        c.len() > 0,
        no_sep(c),
    ensures
        rel_stack(step(t, c)),
{
    lemma_step_normal(t, c);
    let r = step(t, c);
    assert forall|i: int| 0 <= i < r.len() implies (#[trigger] r[i]).len() > 0 by {
        if i < t.len() {
            assert(r[i] == t[i]);
        } else {
            assert(dot_dot().len() == 2);
        }
    }
}

pub proof fn lemma_run_rel(t: Seq<Seq<char>>, x: Seq<Seq<char>>)
    requires
        rel_stack(t),
        filled(x),
    ensures
        rel_stack(run(t, x)),
    decreases x.len(),
{
    if x.len() > 0 {
        let x0 = x.drop_last();
        assert(filled(x0)) by {
            assert forall|i: int| 0 <= i < x0.len() implies (#[trigger] x0[i]).len() > 0 && no_sep(
                x0[i],
            ) by {
                assert(x0[i] == x[i]);
            }
        }
        lemma_run_rel(t, x0);
        assert(x[x.len() - 1].len() > 0);
        lemma_step_rel(run(t, x0), x.last());
    }
}

/// Reading one more component onto a relative stack, then the stack onto
/// another, is reading the stack and then the component.
pub proof fn lemma_step_over(s: Seq<Seq<char>>, t: Seq<Seq<char>>, c: Seq<char>)
    requires
        rel_stack(t),
        c.len() > 0,
        no_sep(c),
    ensures
        run(s, step(t, c)) == step(run(s, t), c),
{
    if c == dot_dot() {
        if t.len() > 0 && t.last().len() == 0 {
            assert(t[t.len() - 1].len() > 0);
        } else if t.len() > 0 && t.last() != dot_dot() {
            let l = t.last();
            assert(t[t.len() - 1] == l);
            assert(no_sep(l) && l != dot() && l.len() > 0);
            assert(run(s, t) == step(run(s, t.drop_last()), l));
            assert(run(s, t) == run(s, t.drop_last()).push(l));
            assert(run(s, t).drop_last() =~= run(s, t.drop_last()));
        } else {
            assert(t.push(c).drop_last() =~= t);
        }
    } else if c == dot() {
    } else {
        assert(t.push(c).drop_last() =~= t);
    }
}

/// Reading filled components onto a stack depends only on what they
/// resolve to on their own.
pub proof fn lemma_run_over(s: Seq<Seq<char>>, x: Seq<Seq<char>>)
    requires
        filled(x),
    ensures
        run(s, x) == run(s, run(Seq::empty(), x)),
    decreases x.len(),
{
    if x.len() > 0 {
        let x0 = x.drop_last();
        assert(filled(x0)) by {
            assert forall|i: int| 0 <= i < x0.len() implies (#[trigger] x0[i]).len() > 0 && no_sep(
                x0[i],
            ) by {
                assert(x0[i] == x[i]);
            }
        }
        lemma_run_over(s, x0);
        assert(rel_stack(Seq::<Seq<char>>::empty()));
        lemma_run_rel(Seq::empty(), x0);
        assert(x[x.len() - 1].len() > 0 && no_sep(x[x.len() - 1]));
        lemma_step_over(s, run(Seq::empty(), x0), x.last());
    }
}

/// Joining `y`, written from the components `y_parts`, onto `x`, written
/// from `x_parts` with a separator at the end where `tx` holds, resolves
/// the components of both read in turn.
pub proof fn lemma_join_glue(
    x: Seq<char>,
    x_parts: Seq<Seq<char>>,
    tx: bool,
    y: Seq<char>,
    y_parts: Seq<Seq<char>>,
)
    requires
        x.len() > 0,
        y.len() > 0,
        !spec_is_absolute(y),
        x_parts.len() >= 1,
        y_parts.len() >= 1,
        forall|i: int| 0 <= i < x_parts.len() ==> no_sep(#[trigger] x_parts[i]),
        forall|i: int| 0 <= i < y_parts.len() ==> no_sep(#[trigger] y_parts[i]),
        x == join_all(x_parts) + if tx {
            seq!['/']
        } else {
            Seq::<char>::empty()
        },
        tx == ends_with_sep(x),
        y == join_all(y_parts),
    ensures
        spec_join(x, y) == render(resolve_stack(x_parts + y_parts), ends_with_sep(y)),
{
    let all = x_parts + y_parts;
    let s = join_all(x_parts) + seq!['/'] + y;
    lemma_join_concat(x_parts, y_parts);
    assert(join_all(all) == s);
    if tx {
        assert(x + y =~= s);
    } else {
        assert(x =~= join_all(x_parts));
        assert(x + seq!['/'] + y =~= s);
    }
    assert(spec_join(x, y) == resolve(s));
    assert forall|i: int| 0 <= i < all.len() implies no_sep(#[trigger] all[i]) by {
        if i < x_parts.len() {
            assert(all[i] == x_parts[i]);
        } else {
            assert(all[i] == y_parts[i - x_parts.len()]);
        }
    }
    lemma_split_join(all);
    assert(s.last() == y.last());
    assert(ends_with_sep(s) == ends_with_sep(y));
    assert(marked_stack(s) == with_marker(resolve_stack(all), ends_with_sep(y)));
}

/// A stack read onto another from scratch: the reading of `x` then `y`.
pub proof fn lemma_stack_of_concat(x: Seq<Seq<char>>, y: Seq<Seq<char>>)
    requires
        normal_stack(x),
    ensures
        resolve_stack(x + y) == run(x, y),
{
    lemma_run_empty(x + y);
    lemma_run_concat(Seq::empty(), x, y);
    lemma_run_empty(x);
    lemma_resolve_stack_fixed(x);
}

/// The marker read after a non-empty stack changes nothing.
pub proof fn lemma_run_marker(s: Seq<Seq<char>>, t: bool)
    requires
        s.len() >= 1,
    ensures
        ({
            let m: Seq<Seq<char>> = if t {
                seq![Seq::<char>::empty()]
            } else {
                Seq::empty()
            };
            run(s, m) == s
        }),
{
    let e = Seq::<char>::empty();
    assert(run(s, Seq::<Seq<char>>::empty()) == s);
    if t {
        assert(seq![e].drop_last() =~= Seq::<Seq<char>>::empty());
        assert(seq![e].last() == e);
        lemma_step_marker(s);
    }
}

/// The marker read onto a non-empty stack changes nothing.
pub proof fn lemma_step_marker(s: Seq<Seq<char>>)
    requires
        s.len() >= 1,
    ensures
        step(s, Seq::<char>::empty()) == s,
{
    assert(dot_dot().len() == 2);
    assert(dot().len() == 1);
}

/// Components of a filled stack, with an optional marker.
pub open spec fn with_marker(st: Seq<Seq<char>>, t: bool) -> Seq<Seq<char>> {
    if t {
        st.push(Seq::<char>::empty())
    } else {
        st
    }
}

/// The shape of a canonical relative path that is not empty: a relative
/// stack, joined, with a separator at the end where the path has one.
pub proof fn lemma_canonical_relative(b: Seq<char>)
    requires
        resolve(b) == b,
        b.len() >= 1,
        b[0] != '/',
    ensures
        rel_stack(resolve_stack(split(b))),
        resolve_stack(split(b)).len() >= 1,
        b == join_all(with_marker(resolve_stack(split(b)), ends_with_sep(b))),
{
    let e = Seq::<char>::empty();
    crate::lexical::lemma_marked_stack_normal_shape(b);
    let st = resolve_stack(split(b));
    let m = marked_stack(b);
    if m == seq![e] {
        assert(b == seq!['/']);
    }
    assert(b == join_all(m));
    if st.len() == 0 {
        if ends_with_sep(b) {
            assert(m =~= seq![e]);
        } else {
            assert(b.len() == 0);
        }
    }
    if st[0].len() == 0 {
        if m.len() == 1 {
            assert(join_all(m) == m[0]);
        } else {
            lemma_join_first_empty(m);
        }
    }
    assert forall|i: int| 0 <= i < st.len() implies (#[trigger] st[i]).len() > 0 by {
        assert(no_sep(st[i]));
    }
}

pub proof fn lemma_join_first_empty(cs: Seq<Seq<char>>)
    requires
        cs.len() >= 2,
        cs[0].len() == 0,
    ensures
        join_all(cs).len() > 0,
        join_all(cs)[0] == '/',
    decreases cs.len(),
{
    if cs.len() > 2 {
        assert(cs.drop_last()[0] == cs[0]);
        lemma_join_first_empty(cs.drop_last());
    } else {
        assert(cs.drop_last() =~= seq![cs[0]]);
        assert(join_all(cs.drop_last()) == cs[0]);
    }
}

} // verus!
