//! Laws that relate the operations of the library.

use vstd::prelude::*;

use crate::assoc::{
    abs_stack, filled, lemma_canonical_relative, lemma_join_glue, lemma_run_abs, lemma_run_marker,
    lemma_run_over, lemma_run_rel, lemma_stack_of_concat, rel_stack, render, with_marker,
};
use crate::lexical::{
    dot_dot, ends_with_sep, join_all, lemma_join_last, lemma_resolve_idempotent,
    lemma_resolve_join_fixed, lemma_resolve_stack_fixed, lemma_split_join, marked_stack, no_sep,
    normal_stack, resolve, resolve_stack, split, step, trim_all_seps,
};
use crate::path::{
    common_from, lemma_common_from_bounds, rel_parts, relative_comps, spec_is_absolute, spec_join,
    spec_relative_to,
};
use crate::roundtrip::{
    dots, lemma_canonical_absolute, lemma_join_concat, lemma_join_first, lemma_resolve_dot,
    lemma_run_concat, lemma_run_dots, lemma_run_empty, lemma_run_reals, ordinary, run,
};
use crate::trie::{
    ancestor_of, has_ancestor, is_longest_ancestor, key_of, lemma_longest_unique, PrefixTrie,
};

verus! {

/// Normalizing is idempotent: the canonical form of a canonical form is
/// itself, so `Path::from(Path::from(x).as_str())` equals `Path::from(x)`.
pub proof fn law_normalize_idempotent(x: Seq<char>)
    ensures
        resolve(resolve(x)) == resolve(x),
{
    lemma_resolve_idempotent(x);
}

/// An ancestor lookup is answered by the unique longest stored key that is a
/// prefix of the probe's key: where any stored key is such a prefix, the
/// one that the lookups report is one, no stored prefix is longer, and no
/// other key has both properties.
pub proof fn law_ancestor_unique_longest<T>(t: &PrefixTrie<T>, probe: Seq<char>)
    requires
        t.wf(),
    ensures
        has_ancestor(t@.dom(), key_of(probe)) ==> {
            &&& is_longest_ancestor(t@.dom(), key_of(probe), ancestor_of(t@.dom(), key_of(probe)))
            &&& forall|q: Seq<char>| #[trigger]
                is_longest_ancestor(t@.dom(), key_of(probe), q) ==> q == ancestor_of(
                    t@.dom(),
                    key_of(probe),
                )
        },
{
    if has_ancestor(t@.dom(), key_of(probe)) {
        t.lemma_ancestor_exists(probe);
        lemma_longest_unique(t@.dom(), key_of(probe), ancestor_of(t@.dom(), key_of(probe)));
    }
}


/// Joining onto `a` the path that `relative_to` gives from `a` to `b` leads
/// back to `b`, for canonical absolute paths `a` and `b`. Paths that differ
/// only in a trailing separator are left out, unless they are equal: from
/// one to the other `relative_to` gives the empty path, and the join keeps
/// `a`.
#[verifier::spinoff_prover]
#[verifier::rlimit(80)]
pub proof fn law_relative_round_trip(a: Seq<char>, b: Seq<char>)
    requires
        resolve(a) == a,
        resolve(b) == b,
        spec_is_absolute(a),
        spec_is_absolute(b),
        trim_all_seps(a) == trim_all_seps(b) ==> a == b,
    ensures
        resolve(spec_join(a, spec_relative_to(b, a))) == b,
{
    let e = Seq::<char>::empty();
    lemma_canonical_absolute(a);
    lemma_canonical_absolute(b);
    let pa = rel_parts(a);
    let pb = rel_parts(b);
    lemma_common_from_bounds(pb, pa, 1);
    assert(common_from(pb, pa, 0) == common_from(pb, pa, 1)) by {
        assert(pb[0] =~= pa[0]);
    }
    let c = common_from(pb, pa, 0);
    let k = (pa.len() - c) as nat;
    let rest = pb.subrange(c as int, pb.len() as int);
    let trail = if ends_with_sep(b) {
        seq![e]
    } else {
        Seq::<Seq<char>>::empty()
    };
    let r0 = dots(k) + rest;
    let r = relative_comps(b, a);
    assert(r == r0 + trail);
    if r0.len() == 0 {
        assert(pa =~= pb) by {
            assert forall|j: int| 0 <= j < pa.len() implies pa[j] == pb[j] by {}
        }
        assert(a == b);
        lemma_resolve_dot();
        if ends_with_sep(b) {
            assert(r =~= seq![e]);
            assert(join_all(seq![e]) == e);
            assert(resolve(e) == e);
        } else {
            assert(r.len() == 0);
        }
        assert(spec_relative_to(b, a) == e);
        lemma_resolve_idempotent(a);
        return;
    }
    // The components of the relative path.
    assert forall|i: int| 0 <= i < r0.len() implies {
        &&& no_sep(#[trigger] r0[i])
        &&& r0[i].len() > 0
        &&& r0[i] != crate::lexical::dot()
        &&& (i < k ==> r0[i] == dot_dot())
        &&& (i >= k ==> ordinary(r0[i]))
    } by {
        if i < k {
            assert(r0[i] == dot_dot());
            assert(dot_dot().len() == 2);
            assert(crate::lexical::dot().len() == 1);
            assert(no_sep(dot_dot())) by {
                assert forall|j: int| 0 <= j < dot_dot().len() implies dot_dot()[j] != '/' by {}
            }
        } else {
            assert(r0[i] == pb[c + i - k]);
            assert(ordinary(pb[c + i - k]));
        }
    }
    assert(normal_stack(r0)) by {
        assert forall|i: int| 0 <= i < r0.len() implies {
            &&& no_sep(#[trigger] r0[i])
            &&& r0[i] != crate::lexical::dot()
            &&& r0[i].len() == 0 ==> i == 0
            &&& r0[i] == dot_dot() ==> (i == 0 || r0[i - 1] == dot_dot())
        } by {
            if i >= k && r0[i] == dot_dot() {
                assert(ordinary(r0[i]));
            }
            if i > 0 && i <= k {
                assert(r0[i - 1] == dot_dot());
            }
        }
    }
    assert(r0.last().len() > 0);
    lemma_resolve_join_fixed(r0, ends_with_sep(b));
    let rel = join_all(r);
    if ends_with_sep(b) {
        assert(r =~= r0.push(e));
    } else {
        assert(r =~= r0);
    }
    assert(r.len() > 0);
    assert(spec_relative_to(b, a) == rel);
    assert(r[0] == r0[0]);
    lemma_join_first(r);
    assert(no_sep(r0[0]));
    assert(!spec_is_absolute(rel));
    // The joined string is the components of `a` and of the relative path.
    let ja = join_all(pa);
    let s = ja + seq!['/'] + rel;
    if ends_with_sep(a) {
        assert(a + rel =~= s);
        assert(spec_join(a, rel) == resolve(s));
    } else {
        assert(a =~= ja + e);
        assert(a + seq!['/'] + rel =~= s);
        assert(spec_join(a, rel) == resolve(s));
    }
    lemma_join_concat(pa, r);
    let all = pa + r;
    assert forall|i: int| 0 <= i < all.len() implies no_sep(#[trigger] all[i]) by {
        if i < pa.len() {
            assert(all[i] == pa[i]);
        } else if i - pa.len() < r0.len() {
            assert(all[i] == r0[i - pa.len()]);
        } else {
            assert(all[i] == e);
        }
    }
    lemma_split_join(all);
    // Reading them: the `..`s go back to the shared part, the rest of `b`
    // follows.
    lemma_run_empty(all);
    lemma_run_concat(Seq::empty(), pa, r);
    lemma_run_empty(pa);
    lemma_resolve_stack_fixed(pa);
    assert(r =~= dots(k) + rest + trail);
    lemma_run_concat(pa, dots(k) + rest, trail);
    lemma_run_concat(pa, dots(k), rest);
    assert forall|i: int| pa.len() - k <= i < pa.len() implies ordinary(#[trigger] pa[i]) by {}
    lemma_run_dots(pa, k);
    assert forall|i: int| 0 <= i < rest.len() implies ordinary(#[trigger] rest[i]) by {
        assert(rest[i] == pb[c + i]);
    }
    lemma_run_reals(pa.subrange(0, c as int), rest);
    assert(pa.subrange(0, c as int) + rest =~= pb) by {
        assert forall|j: int| 0 <= j < c implies pa[j] == pb[j] by {}
    }
    assert(run(pa, dots(k) + rest) == pb);
    if ends_with_sep(b) {
        assert(trail.drop_last() =~= Seq::<Seq<char>>::empty());
        assert(e != dot_dot() && e != crate::lexical::dot()) by {
            assert(dot_dot().len() == 2);
            assert(crate::lexical::dot().len() == 1);
        }
        assert(run(pb, Seq::<Seq<char>>::empty()) == pb);
        assert(trail.last() == e);
        assert(run(pb, trail) == step(run(pb, trail.drop_last()), trail.last()));
        assert(run(pb, trail) == step(pb, e));
    }
    assert(run(pb, trail) == pb);
    assert(resolve_stack(split(s)) == pb);
    // The trailing separator of the joined string is that of `b`.
    if ends_with_sep(b) {
        assert(r.last() == e);
        assert(r.drop_last() =~= r0);
        assert(rel == join_all(r0) + seq!['/'] + e);
        assert(s.last() == '/');
    } else {
        assert(r =~= r0);
        lemma_join_last(r0);
        assert(no_sep(r0.last()));
        assert(s.last() == rel.last());
    }
    assert(marked_stack(s) == pb + trail);
    if ends_with_sep(b) {
        assert(pb + trail =~= pb.push(e));
        assert((pb + trail).len() >= 2);
        assert(join_all(pb.push(e)) == join_all(pb) + seq!['/'] + e) by {
            assert(pb.push(e).drop_last() =~= pb);
        }
        assert(b =~= join_all(pb + trail));
    } else {
        assert(pb + trail =~= pb);
        assert(pb.len() >= 2);
        assert(b =~= join_all(pb) + e);
    }
    assert(resolve(s) == b);
}



/// Joining associates on an absolute base: for a canonical absolute `a`
/// and canonical relative `b` and `c` whose join `b.join(c)` is neither
/// empty nor absolute, `a.join(b).join(c)` equals `a.join(b.join(c))`.
pub proof fn law_join_associative_on_absolute(a: Seq<char>, b: Seq<char>, c: Seq<char>)
    requires
        resolve(a) == a,
        resolve(b) == b,
        resolve(c) == c,
        spec_is_absolute(a),
        !spec_is_absolute(b),
        !spec_is_absolute(c),
        spec_join(b, c).len() > 0,
        !spec_is_absolute(spec_join(b, c)),
    ensures
        spec_join(spec_join(a, b), c) == spec_join(a, spec_join(b, c)),
{
    if b.len() == 0 || c.len() == 0 {
        return;
    }
    lemma_canonical_absolute(a);
    let pa = rel_parts(a);
    let ta = ends_with_sep(a);
    assert(abs_stack(pa));
    let sb = resolve_stack(split(b));
    let sc = resolve_stack(split(c));
    // (a.join(b)).join(c) reads the stacks of `b` and `c` onto that of `a`.
    lemma_join_onto_abs(a, pa, ta, b);
    let s1 = run(pa, sb);
    let ab = spec_join(a, b);
    lemma_render_abs(s1, ends_with_sep(b));
    let t1 = ends_with_sep(b) || s1.len() == 1;
    lemma_join_onto_abs(ab, s1, t1, c);
    // a.join(b.join(c)) reads the stack of `b.join(c)` onto that of `a`.
    lemma_join_rel_rel(b, c);
    let u = run(sb, sc);
    let bc = spec_join(b, c);
    lemma_join_onto_abs(a, pa, ta, bc);
    // The two readings agree.
    lemma_canonical_relative(b);
    lemma_canonical_relative(c);
    assert(filled(sb + sc)) by {
        assert forall|i: int| 0 <= i < (sb + sc).len() implies (#[trigger] (sb + sc)[i]).len() > 0
            && no_sep((sb + sc)[i]) by {
            if i < sb.len() {
                assert((sb + sc)[i] == sb[i]);
            } else {
                assert((sb + sc)[i] == sc[i - sb.len()]);
            }
        }
    }
    lemma_run_over(pa, sb + sc);
    lemma_run_concat(pa, sb, sc);
    lemma_run_concat(Seq::empty(), sb, sc);
    lemma_run_empty(sb);
    lemma_resolve_stack_fixed(sb);
}

/// What resolution writes for an absolute stack, and whether it ends with
/// a separator.
proof fn lemma_render_abs(st: Seq<Seq<char>>, t: bool)
    requires
        abs_stack(st),
    ensures
        ({
            let t1 = t || st.len() == 1;
            &&& render(st, t) == join_all(st) + if t1 {
                seq!['/']
            } else {
                Seq::<char>::empty()
            }
            &&& ends_with_sep(render(st, t)) == t1
            &&& render(st, t).len() > 0
            &&& (!t1 ==> st.len() >= 2)
        }),
{
    let e = Seq::<char>::empty();
    let r = render(st, t);
    if t {
        assert(st.push(e).drop_last() =~= st);
        assert(st.push(e).len() >= 2);
        assert(r == join_all(st) + seq!['/'] + e);
        assert(r =~= join_all(st) + seq!['/']);
    } else if st.len() == 1 {
        assert(st[0] =~= e);
        assert(st =~= seq![e]);
        assert(join_all(st) == e);
        assert(r =~= join_all(st) + seq!['/']);
    } else {
        assert(st[st.len() - 1].len() > 0);
        lemma_join_last(st);
        assert(no_sep(st[st.len() - 1]));
        assert(r =~= join_all(st) + e);
    }
}

/// Joining a canonical relative path onto one written from an absolute
/// stack reads its stack onto that one.
proof fn lemma_join_onto_abs(x: Seq<char>, px: Seq<Seq<char>>, tx: bool, y: Seq<char>)
    requires
        abs_stack(px),
        x == join_all(px) + if tx {
            seq!['/']
        } else {
            Seq::<char>::empty()
        },
        tx == ends_with_sep(x),
        !tx ==> px.len() >= 2,
        x.len() > 0,
        resolve(y) == y,
        y.len() > 0,
        !spec_is_absolute(y),
    ensures
        abs_stack(run(px, resolve_stack(split(y)))),
        spec_join(x, y) == render(run(px, resolve_stack(split(y))), ends_with_sep(y)),
{
    let e = Seq::<char>::empty();
    lemma_canonical_relative(y);
    let sy = resolve_stack(split(y));
    let ty = ends_with_sep(y);
    let my = with_marker(sy, ty);
    let mark: Seq<Seq<char>> = if ty {
        seq![e]
    } else {
        Seq::empty()
    };
    assert(my =~= sy + mark);
    assert forall|i: int| 0 <= i < px.len() implies no_sep(#[trigger] px[i]) by {}
    assert forall|i: int| 0 <= i < sy.len() implies no_sep(#[trigger] sy[i]) by {}
    assert forall|i: int| 0 <= i < my.len() implies no_sep(#[trigger] my[i]) by {
        if i < sy.len() {
            assert(my[i] == sy[i]);
        } else {
            assert(my[i] == e);
        }
    }
    assert(y[0] != '/');
    lemma_join_glue(x, px, tx, y, my);
    lemma_stack_of_concat(px, my);
    lemma_run_concat(px, sy, mark);
    lemma_run_abs(px, sy);
    lemma_run_marker(run(px, sy), ty);
}

/// Joining two canonical relative paths that are not empty reads the
/// stack of the second onto that of the first.
proof fn lemma_join_rel_render(b: Seq<char>, c: Seq<char>)
    requires
        resolve(b) == b,
        resolve(c) == c,
        b.len() > 0,
        c.len() > 0,
        !spec_is_absolute(b),
        !spec_is_absolute(c),
    ensures
        spec_join(b, c) == render(
            run(
                run(resolve_stack(split(b)), resolve_stack(split(c))),
                if ends_with_sep(c) {
                    seq![Seq::<char>::empty()]
                } else {
                    Seq::<Seq<char>>::empty()
                },
            ),
            ends_with_sep(c),
        ),
{
    let e = Seq::<char>::empty();
    lemma_canonical_relative(b);
    lemma_canonical_relative(c);
    let sb = resolve_stack(split(b));
    let sc = resolve_stack(split(c));
    let tb = ends_with_sep(b);
    let tc = ends_with_sep(c);
    let mc = with_marker(sc, tc);
    let mark_c: Seq<Seq<char>> = if tc {
        seq![e]
    } else {
        Seq::empty()
    };
    assert(mc =~= sc + mark_c);
    assert forall|i: int| 0 <= i < sb.len() implies no_sep(#[trigger] sb[i]) by {}
    assert forall|i: int| 0 <= i < mc.len() implies no_sep(#[trigger] mc[i]) by {
        if i < sc.len() {
            assert(mc[i] == sc[i]);
        } else {
            assert(mc[i] == e);
        }
    }
    assert(b == join_all(sb) + if tb {
        seq!['/']
    } else {
        e
    }) by {
        if tb {
            assert(sb.push(e).drop_last() =~= sb);
            assert(join_all(sb.push(e)) == join_all(sb) + seq!['/'] + e);
            assert(join_all(sb) + seq!['/'] + e =~= join_all(sb) + seq!['/']);
        } else {
            assert(join_all(sb) =~= join_all(sb) + e);
        }
    }
    assert(c[0] != '/');
    lemma_join_glue(b, sb, tb, c, mc);
    lemma_stack_of_concat(sb, mc);
    lemma_run_concat(sb, sc, mark_c);
}

/// Joining two canonical relative paths whose join is neither empty nor
/// absolute: the join is canonical and relative, its stack is that of the
/// first with that of the second read onto it, and it ends with a
/// separator where the second does.
proof fn lemma_join_rel_rel(b: Seq<char>, c: Seq<char>)
    requires
        resolve(b) == b,
        resolve(c) == c,
        b.len() > 0,
        c.len() > 0,
        !spec_is_absolute(b),
        !spec_is_absolute(c),
        spec_join(b, c).len() > 0,
        !spec_is_absolute(spec_join(b, c)),
    ensures
        resolve(spec_join(b, c)) == spec_join(b, c),
        resolve_stack(split(b)).len() >= 1,
        rel_stack(run(resolve_stack(split(b)), resolve_stack(split(c)))),
        resolve_stack(split(spec_join(b, c))) == run(resolve_stack(split(b)), resolve_stack(split(c))),
        ends_with_sep(spec_join(b, c)) == ends_with_sep(c),
{
    let e = Seq::<char>::empty();
    lemma_canonical_relative(b);
    lemma_canonical_relative(c);
    let sb = resolve_stack(split(b));
    let sc = resolve_stack(split(c));
    let tb = ends_with_sep(b);
    let tc = ends_with_sep(c);
    let mc = with_marker(sc, tc);
    let mark_c: Seq<Seq<char>> = if tc {
        seq![e]
    } else {
        Seq::empty()
    };
    assert(mc =~= sc + mark_c);
    assert forall|i: int| 0 <= i < sb.len() implies no_sep(#[trigger] sb[i]) by {}
    assert forall|i: int| 0 <= i < mc.len() implies no_sep(#[trigger] mc[i]) by {
        if i < sc.len() {
            assert(mc[i] == sc[i]);
        } else {
            assert(mc[i] == e);
        }
    }
    assert(b == join_all(sb) + if tb {
        seq!['/']
    } else {
        e
    }) by {
        if tb {
            assert(sb.push(e).drop_last() =~= sb);
            assert(join_all(sb.push(e)) == join_all(sb) + seq!['/'] + e);
            assert(join_all(sb) + seq!['/'] + e =~= join_all(sb) + seq!['/']);
        } else {
            assert(join_all(sb) =~= join_all(sb) + e);
        }
    }
    assert(c[0] != '/');
    lemma_join_glue(b, sb, tb, c, mc);
    lemma_stack_of_concat(sb, mc);
    lemma_run_concat(sb, sc, mark_c);
    let u = run(sb, sc);
    assert(filled(sc)) by {
        assert forall|i: int| 0 <= i < sc.len() implies (#[trigger] sc[i]).len() > 0 && no_sep(
            sc[i],
        ) by {}
    }
    lemma_run_rel(sb, sc);
    let bc = spec_join(b, c);
    assert(bc == render(run(u, mark_c), tc));
    if u.len() == 0 {
        if tc {
            assert(mark_c.drop_last() =~= Seq::<Seq<char>>::empty());
            assert(run(u, Seq::<Seq<char>>::empty()) == u);
            assert(run(u, mark_c) == step(run(u, Seq::<Seq<char>>::empty()), e));
            assert(run(u, mark_c) =~= seq![e]);
            assert(seq![e].push(e) =~= seq![e, e]);
            assert(seq![e, e].drop_last() =~= seq![e]);
            assert(join_all(seq![e, e]) == join_all(seq![e]) + seq!['/'] + e);
            assert(bc =~= seq!['/']);
        } else {
            assert(run(u, Seq::<Seq<char>>::empty()) == u);
            assert(bc == join_all(u));
        }
    }
    lemma_run_marker(u, tc);
    assert(u[u.len() - 1].len() > 0);
    lemma_resolve_join_fixed(u, tc);
    assert(with_marker(u, tc)[0] == u[0]);
    assert(u[0].len() > 0);
    assert(with_marker(u, tc) != seq![e]);
    assert(bc == join_all(with_marker(u, tc)));
    let mu = with_marker(u, tc);
    assert(mu =~= u + mark_c);
    assert forall|i: int| 0 <= i < mu.len() implies no_sep(#[trigger] mu[i]) by {
        if i < u.len() {
            assert(mu[i] == u[i]);
        } else {
            assert(mu[i] == e);
        }
    }
    lemma_split_join(mu);
    lemma_stack_of_concat(u, mark_c);
    if tc {
        assert(u.push(e).drop_last() =~= u);
        assert(join_all(u.push(e)) == join_all(u) + seq!['/'] + e);
    } else {
        lemma_join_last(u);
        assert(no_sep(u[u.len() - 1]));
    }
}


/// Joining associates on a relative base: for canonical relative `a`, `b`
/// and `c`, with `a` not empty, where neither `a.join(b)` nor `b.join(c)` is
/// empty or absolute, `a.join(b).join(c)` equals `a.join(b.join(c))`.
pub proof fn law_join_associative_on_relative(a: Seq<char>, b: Seq<char>, c: Seq<char>)
    requires
        resolve(a) == a,
        resolve(b) == b,
        resolve(c) == c,
        a.len() > 0,
        !spec_is_absolute(a),
        !spec_is_absolute(b),
        !spec_is_absolute(c),
        spec_join(a, b).len() > 0,
        !spec_is_absolute(spec_join(a, b)),
        spec_join(b, c).len() > 0,
        !spec_is_absolute(spec_join(b, c)),
    ensures
        spec_join(spec_join(a, b), c) == spec_join(a, spec_join(b, c)),
{
    if b.len() == 0 || c.len() == 0 {
        return;
    }
    let sa = resolve_stack(split(a));
    let sb = resolve_stack(split(b));
    let sc = resolve_stack(split(c));
    lemma_canonical_relative(a);
    lemma_canonical_relative(b);
    lemma_canonical_relative(c);
    // The stacks of a.join(b) and of b.join(c).
    lemma_join_rel_rel(a, b);
    lemma_join_rel_rel(b, c);
    let ab = spec_join(a, b);
    let bc = spec_join(b, c);
    // (a.join(b)).join(c) and a.join(b.join(c)) both read onto a stack.
    lemma_join_rel_render(ab, c);
    lemma_join_rel_render(a, bc);
    // The two readings agree.
    assert(filled(sb + sc)) by {
        assert forall|i: int| 0 <= i < (sb + sc).len() implies (#[trigger] (sb + sc)[i]).len() > 0
            && no_sep((sb + sc)[i]) by {
            if i < sb.len() {
                assert((sb + sc)[i] == sb[i]);
            } else {
                assert((sb + sc)[i] == sc[i - sb.len()]);
            }
        }
    }
    lemma_run_over(sa, sb + sc);
    lemma_run_concat(sa, sb, sc);
    lemma_run_concat(Seq::empty(), sb, sc);
    lemma_run_empty(sb);
    lemma_resolve_stack_fixed(sb);
}

} // verus!
