//! The `Path` value type: construction, lexical normalization and the
//! derived operations on the canonical string.

use vstd::prelude::*;
use vstd::string::StrSliceExecFns;
use vstd::string::StringExecFns;

use crate::lexical::{
    lemma_resolve_idempotent, base_start, dot, dot_dot, dts, ends_with_sep, join_all, last_index, lemma_join_prefix,
    lemma_resolve_root_fixed, marked_stack, resolve, resolve_stack, split, step,
    trim_all_seps, trim_sep,
};

verus! {

/// The characters of `s`, one by one.
fn chars_of(s: &str) -> (r: Vec<char>)
    ensures
        r@ == s@,
{
    let n = s.unicode_len();
    let mut r: Vec<char> = Vec::new();
    let mut i: usize = 0;
    while i < n
        invariant
            n == s@.len(),
            i <= n,
            r@ == s@.subrange(0, i as int),
        decreases n - i,
    {
        r.push(s.get_char(i));
        i += 1;
        proof {
            assert(r@ =~= s@.subrange(0, i as int));
        }
    }
    proof {
        assert(r@ =~= s@);
    }
    r
}

/// The components that the ranges `v` cut out of `s`.
pub open spec fn ranges_view(s: Seq<char>, v: Seq<(usize, usize)>) -> Seq<Seq<char>> {
    v.map_values(|r: (usize, usize)| s.subrange(r.0 as int, r.1 as int))
}

pub open spec fn ranges_valid(n: nat, v: Seq<(usize, usize)>) -> bool {
    forall|j: int| 0 <= j < v.len() ==> v[j].0 <= v[j].1 && v[j].1 <= n
}

fn is_dot_dot(cs: &Vec<char>, a: usize, b: usize) -> (r: bool)
    requires
        a <= b <= cs@.len(),
    ensures
        r == (cs@.subrange(a as int, b as int) == dot_dot()),
{
    if b - a == 2 {
        let r = cs[a] == '.' && cs[a + 1] == '.';
        proof {
            let c = cs@.subrange(a as int, b as int);
            if r {
                assert(c =~= dot_dot());
            } else {
                assert(c[0] != '.' || c[1] != '.');
                assert(dot_dot()[0] == '.' && dot_dot()[1] == '.');
            }
        }
        r
    } else {
        proof {
            assert(dot_dot().len() == 2);
        }
        false
    }
}

fn is_dot(cs: &Vec<char>, a: usize, b: usize) -> (r: bool)
    requires
        a <= b <= cs@.len(),
    ensures
        r == (cs@.subrange(a as int, b as int) == dot()),
{
    if b - a == 1 {
        let r = cs[a] == '.';
        proof {
            let c = cs@.subrange(a as int, b as int);
            if r {
                assert(c =~= dot());
            } else {
                assert(c[0] != '.');
                assert(dot()[0] == '.');
            }
        }
        r
    } else {
        proof {
            assert(dot().len() == 1);
        }
        false
    }
}

/// Reads the component `cs[a..b]` into the stack `st`.
fn push_component(cs: &Vec<char>, st: &mut Vec<(usize, usize)>, a: usize, b: usize)
    requires
        a <= b <= cs@.len(),
        ranges_valid(cs@.len(), old(st)@),
    ensures
        ranges_valid(cs@.len(), final(st)@),
        ranges_view(cs@, final(st)@) == step(
            ranges_view(cs@, old(st)@),
            cs@.subrange(a as int, b as int),
        ),
{
    let ghost s = cs@;
    let ghost old_view = ranges_view(s, st@);
    let ghost c = s.subrange(a as int, b as int);
    let len = st.len();
    if is_dot_dot(cs, a, b) {
        if len > 0 && st[len - 1].0 == st[len - 1].1 {
            assert(old_view.last().len() == 0);
        } else if len > 0 && !is_dot_dot(cs, st[len - 1].0, st[len - 1].1) {
            assert(old_view.last() != dot_dot());
            st.pop();
            assert(ranges_view(s, st@) =~= old_view.drop_last());
        } else {
            proof {
                if len > 0 {
                    assert(old_view.last().len() != 0);
                    assert(old_view.last() == dot_dot());
                }
            }
            st.push((a, b));
            assert(ranges_view(s, st@) =~= old_view.push(dot_dot()));
        }
    } else if is_dot(cs, a, b) {
    } else if a == b {
        if len == 0 {
            st.push((a, b));
            assert(ranges_view(s, st@) =~= old_view.push(c));
        }
    } else {
        st.push((a, b));
        assert(ranges_view(s, st@) =~= old_view.push(c));
    }
}

/// The components `src[v[0]]`, ..., `src[v[k - 1]]` joined with `/`.
fn join_ranges(src: &str, v: &Vec<(usize, usize)>, k: usize) -> (r: String)
    requires
        k <= v@.len(),
        ranges_valid(src@.len(), v@),
    ensures
        r@ == join_all(ranges_view(src@, v@).subrange(0, k as int)),
{
    let ghost w = ranges_view(src@, v@);
    let mut out = String::new();
    let mut j: usize = 0;
    proof {
        assert(w.subrange(0, 0) =~= Seq::<Seq<char>>::empty());
    }
    while j < k
        invariant
            k <= v@.len(),
            w == ranges_view(src@, v@),
            ranges_valid(src@.len(), v@),
            j <= k,
            out@ == join_all(w.subrange(0, j as int)),
        decreases k - j,
    {
        let (a, b) = v[j];
        let ghost before = out@;
        proof {
            lemma_join_prefix(w, j as int);
        }
        if j > 0 {
            proof {
                reveal_strlit("/");
            }
            out.append("/");
        }
        out.append(src.substring_char(a, b));
        proof {
            assert(w[j as int] == src@.subrange(a as int, b as int));
            if j > 0 {
                assert(out@ =~= before + seq!['/'] + w[j as int]);
            } else {
                assert(out@ =~= w[0]);
            }
        }
        j += 1;
    }
    out
}

/// The ranges of the components of `cs[lo..hi]`, split on `/`.
fn split_ranges(cs: &Vec<char>, lo: usize, hi: usize) -> (r: Vec<(usize, usize)>)
    requires
        lo <= hi <= cs@.len(),
    ensures
        ranges_valid(cs@.len(), r@),
        ranges_view(cs@, r@) == split(cs@.subrange(lo as int, hi as int)),
{
    let ghost s = cs@;
    let mut st: Vec<(usize, usize)> = Vec::new();
    let mut start: usize = lo;
    let mut i: usize = lo;
    proof {
        assert(s.subrange(lo as int, lo as int) =~= Seq::<char>::empty());
        assert(ranges_view(s, st@) =~= Seq::<Seq<char>>::empty());
        assert(split(Seq::<char>::empty()).drop_last() =~= Seq::<Seq<char>>::empty());
    }
    while i < hi
        invariant
            s == cs@,
            lo <= start <= i <= hi <= s.len(),
            ranges_valid(s.len(), st@),
            split(s.subrange(lo as int, i as int)).len() >= 1,
            split(s.subrange(lo as int, i as int)).drop_last() == ranges_view(s, st@),
            split(s.subrange(lo as int, i as int)).last() == s.subrange(start as int, i as int),
        decreases hi - i,
    {
        let ghost pre = split(s.subrange(lo as int, i as int));
        assert(s.subrange(lo as int, i + 1).drop_last() =~= s.subrange(lo as int, i as int));
        if cs[i] == '/' {
            let ghost old_view = ranges_view(s, st@);
            st.push((start, i));
            proof {
                assert(ranges_view(s, st@) =~= old_view.push(s.subrange(start as int, i as int)));
                let nxt = split(s.subrange(lo as int, i + 1));
                assert(nxt == pre.push(Seq::<char>::empty()));
                assert(nxt.drop_last() =~= pre);
                assert(pre =~= pre.drop_last().push(pre.last()));
                assert(s.subrange(i + 1, i + 1) =~= Seq::<char>::empty());
            }
            start = i + 1;
        } else {
            proof {
                let nxt = split(s.subrange(lo as int, i + 1));
                assert(nxt == pre.update(pre.len() - 1, pre.last().push(s[i as int])));
                assert(nxt.drop_last() =~= pre.drop_last());
                assert(s.subrange(start as int, i + 1) =~= s.subrange(start as int, i as int).push(
                    s[i as int],
                ));
            }
        }
        i += 1;
    }
    let ghost old_view = ranges_view(s, st@);
    st.push((start, hi));
    proof {
        let sp = split(s.subrange(lo as int, hi as int));
        assert(sp =~= sp.drop_last().push(sp.last()));
        assert(ranges_view(s, st@) =~= old_view.push(s.subrange(start as int, hi as int)));
    }
    st
}

/// The position of the last `c` in `cs[lo..hi]`, counted from `lo`.
fn rfind(cs: &Vec<char>, lo: usize, hi: usize, c: char) -> (r: Option<usize>)
    requires
        lo <= hi <= cs@.len(),
    ensures
        match r {
            Some(i) => i == last_index(cs@.subrange(lo as int, hi as int), c) && i < hi - lo,
            None => last_index(cs@.subrange(lo as int, hi as int), c) == -1,
        },
{
    let ghost t = cs@.subrange(lo as int, hi as int);
    let mut j: usize = hi;
    while j > lo
        invariant
            lo <= j <= hi <= cs@.len(),
            t == cs@.subrange(lo as int, hi as int),
            last_index(t, c) == last_index(cs@.subrange(lo as int, j as int), c),
        decreases j - lo,
    {
        let ghost u = cs@.subrange(lo as int, j as int);
        if cs[j - 1] == c {
            assert(u.last() == c);
            return Some(j - 1 - lo);
        }
        assert(u.drop_last() =~= cs@.subrange(lo as int, j - 1));
        j -= 1;
    }
    None
}

/// The canonical form of `input`: `.` dropped, `..` cancelled against the
/// nearest real component, repeated separators collapsed, a trailing
/// separator kept, and the root written as `/`.
pub fn resolve_path(input: &str) -> (r: String)
    ensures
        r@ == resolve(input@),
{
    if input.is_empty() {
        return String::new();
    }
    let cs = chars_of(input);
    let ghost s = cs@;
    let n = cs.len();
    let mut st: Vec<(usize, usize)> = Vec::new();
    let mut start: usize = 0;
    let mut i: usize = 0;
    proof {
        assert(s.subrange(0, 0) =~= Seq::<char>::empty());
        assert(ranges_view(s, st@) =~= Seq::<Seq<char>>::empty());
    }
    while i < n
        invariant
            n == s.len(),
            s == cs@,
            start <= i <= n,
            ranges_valid(n as nat, st@),
            split(s.subrange(0, i as int)).len() >= 1,
            resolve_stack(split(s.subrange(0, i as int)).drop_last()) == ranges_view(s, st@),
            split(s.subrange(0, i as int)).last() == s.subrange(start as int, i as int),
        decreases n - i,
    {
        let ghost pre = split(s.subrange(0, i as int));
        assert(s.subrange(0, i + 1).drop_last() =~= s.subrange(0, i as int));
        if cs[i] == '/' {
            push_component(&cs, &mut st, start, i);
            proof {
                let nxt = split(s.subrange(0, i + 1));
                assert(nxt == pre.push(Seq::<char>::empty()));
                assert(nxt.drop_last() =~= pre);
                assert(pre =~= pre.drop_last().push(pre.last()));
                assert(s.subrange(i + 1, i + 1) =~= Seq::<char>::empty());
            }
            start = i + 1;
        } else {
            proof {
                let nxt = split(s.subrange(0, i + 1));
                assert(nxt == pre.update(pre.len() - 1, pre.last().push(s[i as int])));
                assert(nxt.drop_last() =~= pre.drop_last());
                assert(s.subrange(start as int, i + 1) =~= s.subrange(start as int, i as int).push(s[i as int]));
            }
        }
        i += 1;
    }
    proof {
        assert(s.subrange(0, n as int) =~= s);
        let sp = split(s);
        assert(sp =~= sp.drop_last().push(sp.last()));
    }
    push_component(&cs, &mut st, start, n);
    if cs[n - 1] == '/' {
        let ghost before = ranges_view(s, st@);
        st.push((n, n));
        assert(ranges_view(s, st@) =~= before.push(Seq::<char>::empty()));
    }
    let ghost v = ranges_view(s, st@);
    assert(v == marked_stack(s));
    if st.len() == 1 && st[0].0 == st[0].1 {
        proof {
            assert(v.len() == 1);
            assert(v[0] =~= Seq::<char>::empty());
            assert(v =~= seq![Seq::<char>::empty()]);
            reveal_strlit("/");
        }
        let r = String::from_str("/");
        assert(r@ =~= seq!['/']);
        return r;
    }
    proof {
        if v == seq![Seq::<char>::empty()] {
            assert(v[0].len() == 0);
        }
    }
    let out = join_ranges(input, &st, st.len());
    assert(v.subrange(0, st@.len() as int) =~= v);
    out
}

/// Whether `s` starts at the root.
pub open spec fn spec_is_absolute(s: Seq<char>) -> bool {
    s.len() > 0 && s[0] == '/'
}

/// Whether `s` reaches above its own start: it is `..` or starts with `../`.
pub open spec fn spec_is_extern(s: Seq<char>) -> bool {
    s == dot_dot() || (s.len() >= 3 && s[0] == '.' && s[1] == '.' && s[2] == '/')
}

/// The last component of `s`, a trailing separator stripped first; none
/// for the root and for the empty path.
pub open spec fn spec_basename(s: Seq<char>) -> Option<Seq<char>> {
    let t = trim_sep(s);
    let b = base_start(t);
    if b < t.len() {
        Some(t.subrange(b, t.len() as int))
    } else {
        None
    }
}

/// The parent of `s`, a trailing separator stripped first: the root for a
/// top-level component of an absolute path, none for the root, for a
/// single relative component and for the empty path.
pub open spec fn spec_dirname(s: Seq<char>) -> Option<Seq<char>> {
    let t = trim_sep(s);
    let b = base_start(t);
    if b == 0 {
        None
    } else if b - 1 > 0 {
        Some(resolve(t.subrange(0, b - 1)))
    } else {
        Some(seq!['/'])
    }
}

/// The extension of the basename `b`: from its last `.` on, or from the
/// `.d.ts` that ends it; none for a dotfile or a name without a dot.
pub open spec fn ext_of(b: Seq<char>) -> Option<Seq<char>> {
    let d = last_index(b, '.');
    if d < 0 {
        None
    } else {
        let e = if d > 2 && b.subrange(d - 2, b.len() as int) == dts() {
            d - 2
        } else {
            d
        };
        if e != 0 {
            Some(b.subrange(e, b.len() as int))
        } else {
            None
        }
    }
}

pub open spec fn spec_extname(s: Seq<char>) -> Option<Seq<char>> {
    match spec_basename(s) {
        Some(b) => ext_of(b),
        None => None,
    }
}

/// How long the extension of `s` is, as `extname` gives it; 0 where it
/// has none.
pub open spec fn ext_len(s: Seq<char>) -> int {
    match spec_extname(s) {
        Some(e) => e.len() as int,
        None => 0,
    }
}

/// `s` with its extension, as `extname` gives it, replaced by `ext`, a
/// trailing separator kept; where `s` has none, `ext` goes at the end of
/// the path before that separator. A path without a basename (the root,
/// the empty path) gets `ext` after its whole string.
pub open spec fn spec_set_ext(s: Seq<char>, ext: Seq<char>) -> Seq<char> {
    let tail = if ends_with_sep(s) {
        seq!['/']
    } else {
        Seq::<char>::empty()
    };
    match spec_basename(s) {
        Some(_) => {
            let t = trim_sep(s);
            t.subrange(0, t.len() - ext_len(s)) + ext + tail
        },
        None => s + ext + tail,
    }
}

/// `other` joined onto `base`: an empty `other` changes nothing, an
/// absolute one or an empty `base` gives `other`, and otherwise the two
/// are joined with one separator and resolved.
pub open spec fn spec_join(base: Seq<char>, other: Seq<char>) -> Seq<char> {
    if other.len() == 0 {
        base
    } else if base.len() == 0 || spec_is_absolute(other) {
        other
    } else if ends_with_sep(base) {
        resolve(base + other)
    } else {
        resolve(base + seq!['/'] + other)
    }
}

/// How many leading components `a` and `b` share, counting from `k`.
pub open spec fn common_from(a: Seq<Seq<char>>, b: Seq<Seq<char>>, k: nat) -> nat
    decreases a.len() - k,
{
    if k < a.len() && k < b.len() && a[k as int] == b[k as int] {
        common_from(a, b, k + 1)
    } else {
        k
    }
}

/// The components of `s` with all trailing separators removed.
pub open spec fn rel_parts(s: Seq<char>) -> Seq<Seq<char>> {
    split(trim_all_seps(s))
}

/// The components of `s` relative to `base`: one `..` for each component
/// of `base` past the shared ones, then the rest of `s`, then the
/// trailing-separator marker of `s`.
pub open spec fn relative_comps(s: Seq<char>, base: Seq<char>) -> Seq<Seq<char>> {
    let a = rel_parts(s);
    let b = rel_parts(base);
    let c = common_from(a, b, 0);
    Seq::new((b.len() - c) as nat, |i: int| dot_dot()) + a.subrange(c as int, a.len() as int) + if ends_with_sep(s) {
        seq![Seq::<char>::empty()]
    } else {
        Seq::<Seq<char>>::empty()
    }
}

/// The path that leads from `base` to `s`.
pub open spec fn spec_relative_to(s: Seq<char>, base: Seq<char>) -> Seq<char> {
    let r = relative_comps(s, base);
    if r.len() == 0 {
        resolve(dot())
    } else {
        resolve(join_all(r))
    }
}

/// The components that a walk over `s` goes through: the empty root
/// component for an absolute path, then the components between one leading
/// and one trailing separator.
pub open spec fn walk_comps(s: Seq<char>) -> Seq<Seq<char>> {
    let lead = spec_is_absolute(s);
    let a: int = if lead {
        1
    } else {
        0
    };
    let e: int = if s.len() - a > 0 && s.last() == '/' {
        s.len() - 1
    } else {
        s.len() as int
    };
    let body = s.subrange(a, e);
    (if lead {
        seq![Seq::<char>::empty()]
    } else {
        Seq::<Seq<char>>::empty()
    }) + (if body.len() > 0 {
        split(body)
    } else {
        Seq::<Seq<char>>::empty()
    })
}

/// Whether the prefixes of a walk over `s` carry a trailing separator.
pub open spec fn walk_trailing(s: Seq<char>) -> bool {
    s.len() > 1 && s.last() == '/'
}

/// The prefix of `s` made of its first `k` walk components: the root for
/// the first prefix of an absolute path, and otherwise the components
/// joined, with a trailing separator where `s` has one.
pub open spec fn walk_prefix(s: Seq<char>, k: int) -> Seq<char> {
    if k == 1 && spec_is_absolute(s) {
        seq!['/']
    } else {
        join_all(walk_comps(s).subrange(0, k)) + if walk_trailing(s) {
            seq!['/']
        } else {
            Seq::<char>::empty()
        }
    }
}

/// The paths of the prefixes `lo`, ..., `hi` of `s`, shortest first.
pub open spec fn walk_range(s: Seq<char>, lo: int, hi: int) -> Seq<Seq<char>> {
    Seq::new((hi - lo + 1) as nat, |i: int| resolve(walk_prefix(s, lo + i)))
}

/// Every prefix path of `s`, from the root (or the first component) to `s`.
pub open spec fn walk(s: Seq<char>) -> Seq<Seq<char>> {
    walk_range(s, 1, walk_comps(s).len() as int)
}

/// A slash-separated virtual path, held in canonical form.
#[derive(Debug, Eq, Hash, PartialOrd, Ord)]
pub struct Path {
    path: String,
}

impl View for Path {
    type V = Seq<char>;

    closed spec fn view(&self) -> Seq<char> {
        self.path@
    }
}

impl PartialEq for Path {
    fn eq(&self, o: &Path) -> (r: bool) {
        self.path == o.path
    }
}

impl vstd::std_specs::cmp::PartialEqSpecImpl for Path {
    open spec fn obeys_eq_spec() -> bool {
        true
    }

    open spec fn eq_spec(&self, o: &Path) -> bool {
        self@ == o@
    }
}

impl Path {
    /// A path always holds its canonical form.
    #[verifier::type_invariant]
    closed spec fn canonical(self) -> bool {
        resolve(self.path@) == self.path@
    }
}

impl Clone for Path {
    fn clone(&self) -> (r: Path)
        ensures
            r@ == self@,
    {
        proof {
            use_type_invariant(self);
        }
        Path { path: self.path.clone() }
    }
}

impl Default for Path {
    fn default() -> (r: Path)
        ensures
            r@ == Seq::<char>::empty(),
    {
        Path::new()
    }
}

impl Path {
    /// The canonical path of `s`.
    pub fn from(s: &str) -> (r: Path)
        ensures
            r@ == resolve(s@),
    {
        let path = resolve_path(s);
        proof {
            lemma_resolve_idempotent(s@);
        }
        Path { path }
    }

    /// The empty path, which stands for no path at all.
    pub fn new() -> (r: Path)
        ensures
            r@ == Seq::<char>::empty(),
    {
        Path::empty()
    }

    /// The empty path, which stands for no path at all.
    pub fn empty() -> (r: Path)
        ensures
            r@ == Seq::<char>::empty(),
    {
        let path = String::new();
        proof {
            assert(resolve(path@) == path@);
        }
        Path { path }
    }

    /// The root, `/`.
    pub fn root() -> (r: Path)
        ensures
            r@ == seq!['/'],
    {
        proof {
            reveal_strlit("/");
        }
        let path = String::from_str("/");
        proof {
            assert(path@ =~= seq!['/']);
            lemma_resolve_root_fixed();
        }
        Path { path }
    }

    /// The canonical string: resolving it changes nothing.
    pub fn as_str(&self) -> (r: &str)
        ensures
            r@ == self@,
            resolve(r@) == r@,
    {
        proof {
            use_type_invariant(self);
        }
        self.path.as_str()
    }

    /// Whether this is the root, `/`.
    pub fn is_root(&self) -> (r: bool)
        ensures
            r == (self@ == seq!['/']),
    {
        let s = self.path.as_str();
        let r = s.unicode_len() == 1 && s.get_char(0) == '/';
        proof {
            if r {
                assert(self@ =~= seq!['/']);
            }
        }
        r
    }

    /// Whether the path starts at the root.
    pub fn is_absolute(&self) -> (r: bool)
        ensures
            r == spec_is_absolute(self@),
    {
        let s = self.path.as_str();
        s.unicode_len() > 0 && s.get_char(0) == '/'
    }

    /// Whether the path does not start at the root.
    pub fn is_relative(&self) -> (r: bool)
        ensures
            r == !spec_is_absolute(self@),
    {
        !self.is_absolute()
    }

    /// Whether the path is relative and stays below its start.
    pub fn is_forward(&self) -> (r: bool)
        ensures
            r == (!spec_is_absolute(self@) && !spec_is_extern(self@)),
    {
        self.is_relative() && !self.is_extern()
    }

    /// Whether the path is `..` or starts with `../`.
    pub fn is_extern(&self) -> (r: bool)
        ensures
            r == spec_is_extern(self@),
    {
        let s = self.path.as_str();
        let n = s.unicode_len();
        if n == 2 {
            let r = s.get_char(0) == '.' && s.get_char(1) == '.';
            proof {
                if r {
                    assert(self@ =~= dot_dot());
                } else {
                    assert(dot_dot()[0] == '.' && dot_dot()[1] == '.');
                }
            }
            r
        } else {
            proof {
                assert(dot_dot().len() == 2);
            }
            n >= 3 && s.get_char(0) == '.' && s.get_char(1) == '.' && s.get_char(2) == '/'
        }
    }

    /// A walk over every prefix of this path, from the root (or the first
    /// component) to the path itself.
    pub fn iter_path(&self) -> (r: PathIterator)
        ensures
            r.wf(),
            r.view() == walk(self@),
    {
        PathIterator::new(self)
    }

    /// The last component, a trailing separator stripped first.
    pub fn basename(&self) -> (r: Option<&str>)
        ensures
            match r {
                Some(b) => spec_basename(self@) == Some(b@),
                None => spec_basename(self@) is None,
            },
    {
        let s = self.path.as_str();
        let cs = chars_of(s);
        let n = cs.len();
        let m = if n > 0 && cs[n - 1] == '/' {
            n - 1
        } else {
            n
        };
        proof {
            assert(trim_sep(cs@) =~= cs@.subrange(0, m as int));
        }
        let b = match rfind(&cs, 0, m, '/') {
            Some(i) => i + 1,
            None => 0,
        };
        if b < m {
            Some(s.substring_char(b, m))
        } else {
            None
        }
    }

    /// The parent path, a trailing separator stripped first.
    pub fn dirname(&self) -> (r: Option<Path>)
        ensures
            match r {
                Some(p) => spec_dirname(self@) == Some(p@),
                None => spec_dirname(self@) is None,
            },
    {
        let s = self.path.as_str();
        let cs = chars_of(s);
        let n = cs.len();
        let m = if n > 0 && cs[n - 1] == '/' {
            n - 1
        } else {
            n
        };
        proof {
            assert(trim_sep(cs@) =~= cs@.subrange(0, m as int));
        }
        match rfind(&cs, 0, m, '/') {
            Some(i) => {
                if i > 0 {
                    proof {
                        assert(cs@.subrange(0, m as int).subrange(0, i as int) =~= cs@.subrange(
                            0,
                            i as int,
                        ));
                    }
                    Some(Path::from(s.substring_char(0, i)))
                } else {
                    Some(Path::root())
                }
            },
            None => None,
        }
    }

    /// The extension of the basename: from its last `.`, with `.d.ts` taken
    /// whole; none for dotfiles and names without a dot.
    pub fn extname(&self) -> (r: Option<&str>)
        ensures
            match r {
                Some(e) => spec_extname(self@) == Some(e@),
                None => spec_extname(self@) is None,
            },
    {
        match self.basename() {
            Some(b) => {
                let cs = chars_of(b);
                let n = cs.len();
                proof {
                    assert(cs@.subrange(0, n as int) =~= cs@);
                }
                match rfind(&cs, 0, n, '.') {
                    Some(d) => {
                        let e = if d > 2 && is_dts(&cs, d - 2, n) {
                            d - 2
                        } else {
                            d
                        };
                        if e != 0 {
                            Some(b.substring_char(e, n))
                        } else {
                            None
                        }
                    },
                    None => None,
                }
            },
            None => None,
        }
    }

    /// Replaces the extension with `ext`, keeping a trailing separator.
    pub fn set_ext(&mut self, ext: &str) -> (r: &mut Path)
        ensures
            r@ == resolve(spec_set_ext(old(self)@, ext@)),
            *final(self) == *final(r),
    {
        let s = self.path.as_str();
        let cs = chars_of(s);
        let n = cs.len();
        let trailing = n > 0 && cs[n - 1] == '/';
        let m = if trailing {
            n - 1
        } else {
            n
        };
        proof {
            assert(trim_sep(cs@) =~= cs@.subrange(0, m as int));
        }
        let ghost t = cs@.subrange(0, m as int);
        let f = match rfind(&cs, 0, m, '/') {
            Some(i) => i + 1,
            None => 0,
        };
        let mut copy;
        if f < m {
            // The basename is `cs[f..m]`; its extension starts at `e`.
            let ghost bas = cs@.subrange(f as int, m as int);
            proof {
                assert(bas =~= t.subrange(f as int, t.len() as int));
            }
            let e = match rfind(&cs, f, m, '.') {
                Some(d) => {
                    let k = if d > 2 && is_dts(&cs, f + d - 2, m) {
                        d - 2
                    } else {
                        d
                    };
                    proof {
                        if d > 2 {
                            assert(cs@.subrange((f + d - 2) as int, m as int) =~= bas.subrange(
                                d - 2,
                                bas.len() as int,
                            ));
                        }
                    }
                    if k != 0 {
                        f + k
                    } else {
                        m
                    }
                },
                None => m,
            };
            copy = String::from_str(s.substring_char(0, e));
            proof {
                assert(cs@.subrange(0, e as int) =~= t.subrange(0, e as int));
            }
        } else {
            copy = String::from_str(s);
        }
        copy.append(ext);
        if trailing {
            proof {
                reveal_strlit("/");
            }
            copy.append("/");
        }
        proof {
            let tail = if trailing {
                seq!['/']
            } else {
                Seq::<char>::empty()
            };
            assert(copy@ =~= spec_set_ext(cs@, ext@));
        }
        let normalized = resolve_path(copy.as_str());
        proof {
            lemma_resolve_idempotent(copy@);
        }
        self.path = normalized;
        self
    }

    /// A copy with the extension replaced by `ext`.
    pub fn with_ext(&self, ext: &str) -> (r: Path)
        ensures
            r@ == resolve(spec_set_ext(self@, ext@)),
    {
        proof {
            use_type_invariant(self);
        }
        let mut copy = Path { path: self.path.clone() };
        copy.set_ext(ext);
        copy
    }

    /// A copy with the extension removed.
    pub fn without_ext(&self) -> (r: Path)
        ensures
            r@ == resolve(spec_set_ext(self@, Seq::<char>::empty())),
    {
        proof {
            reveal_strlit("");
        }
        self.with_ext("")
    }

    /// Joins `other` onto this path.
    pub fn join(&mut self, other: &Path) -> (r: &mut Path)
        ensures
            r@ == spec_join(old(self)@, other@),
            *final(self) == *final(r),
    {
        let o = other.path.as_str();
        if o.unicode_len() > 0 {
            let s = self.path.as_str();
            let n = s.unicode_len();
            if n == 0 || other.is_absolute() {
                proof {
                    use_type_invariant(other);
                }
                self.path = other.path.clone();
            } else {
                let mut joined = String::from_str(s);
                let sep = s.get_char(n - 1) != '/';
                if sep {
                    proof {
                        reveal_strlit("/");
                    }
                    joined.append("/");
                }
                joined.append(o);
                proof {
                    if sep {
                        assert(joined@ =~= s@ + seq!['/'] + o@);
                    } else {
                        assert(joined@ =~= s@ + o@);
                    }
                }
                let normalized = resolve_path(joined.as_str());
                proof {
                    lemma_resolve_idempotent(joined@);
                }
                self.path = normalized;
            }
        }
        self
    }

    /// Joins the path `other`, given as a string, onto this path.
    pub fn join_str(&mut self, other: &str) -> (r: &mut Path)
        ensures
            r@ == spec_join(old(self)@, resolve(other@)),
            *final(self) == *final(r),
    {
        let p = Path::from(other);
        self.join(&p)
    }

    /// A copy with `other` joined onto it.
    pub fn with_join(&self, other: &Path) -> (r: Path)
        ensures
            r@ == spec_join(self@, other@),
    {
        proof {
            use_type_invariant(self);
        }
        let mut copy = Path { path: self.path.clone() };
        copy.join(other);
        copy
    }

    /// A copy with the path `other`, given as a string, joined onto it.
    pub fn with_join_str(&self, other: &str) -> (r: Path)
        ensures
            r@ == spec_join(self@, resolve(other@)),
    {
        proof {
            use_type_invariant(self);
        }
        let mut copy = Path { path: self.path.clone() };
        copy.join_str(other);
        copy
    }

    /// The path that leads from `other` to this path; both must be absolute.
    pub fn relative_to(&self, other: &Path) -> (r: Path)
        requires
            spec_is_absolute(self@),
            spec_is_absolute(other@),
        ensures
            r@ == spec_relative_to(self@, other@),
    {
        let s = self.path.as_str();
        let a = chars_of(s);
        let b = chars_of(other.path.as_str());
        let na = a.len();
        let ends_with_slash = na > 0 && a[na - 1] == '/';
        let ma = trimmed_len(&a);
        let mb = trimmed_len(&b);
        let ar = split_ranges(&a, 0, ma);
        let br = split_ranges(&b, 0, mb);
        let ghost av = ranges_view(a@, ar@);
        let ghost bv = ranges_view(b@, br@);
        proof {
            assert(av == rel_parts(self@));
            assert(bv == rel_parts(other@));
        }
        let mut c: usize = 0;
        while c < ar.len() && c < br.len() && range_eq(&a, ar[c], &b, br[c])
            invariant
                ranges_valid(a@.len(), ar@),
                ranges_valid(b@.len(), br@),
                av == ranges_view(a@, ar@),
                bv == ranges_view(b@, br@),
                c <= ar@.len(),
                c <= br@.len(),
                common_from(av, bv, c as nat) == common_from(av, bv, 0),
            decreases ar@.len() - c,
        {
            c += 1;
        }
        let ghost w = relative_comps(self@, other@);
        let nd = br.len() - c;
        proof {
            assert(common_from(av, bv, c as nat) == c);
            lemma_common_from_bounds(av, bv, 0);
            let dots = Seq::new((bv.len() - c) as nat, |i: int| dot_dot());
            let rest = av.subrange(c as int, av.len() as int);
            let trail = if ends_with_slash {
                seq![Seq::<char>::empty()]
            } else {
                Seq::<Seq<char>>::empty()
            };
            assert(w == dots + rest + trail);
            assert(forall|i: int| 0 <= i < nd ==> w[i] == dots[i]);
            assert(forall|i: int| c <= i < ar@.len() ==> #[trigger] av[i] == w[nd + i - c]);
            if ends_with_slash {
                assert(w[w.len() - 1] == Seq::<char>::empty());
            }
            assert(w.len() == nd + (ar@.len() - c) + if ends_with_slash {
                1int
            } else {
                0int
            });
        }
        let mut out = String::new();
        let ghost mut j: int = 0;
        let mut d: usize = 0;
        proof {
            assert(w.subrange(0, 0) =~= Seq::<Seq<char>>::empty());
        }
        while d < nd
            invariant
                w == relative_comps(self@, other@),
                d <= nd,
                j == d,
                nd <= w.len(),
                forall|i: int| 0 <= i < nd ==> w[i] == dot_dot(),
                out@ == join_all(w.subrange(0, j)),
            decreases nd - d,
        {
            proof {
                reveal_strlit("..");
                assert(".."@ =~= dot_dot());
            }
            push_piece(&mut out, "..", d == 0, Ghost(w), Ghost(j));
            proof {
                j = j + 1;
            }
            d += 1;
        }
        let mut k: usize = c;
        while k < ar.len()
            invariant
                w == relative_comps(self@, other@),
                ranges_valid(a@.len(), ar@),
                av == ranges_view(a@, ar@),
                s@ == a@,
                c <= k <= ar@.len(),
                j == nd + (k - c),
                nd + (ar@.len() - c) <= w.len(),
                forall|i: int| c <= i < ar@.len() ==> #[trigger] av[i] == w[nd + i - c],
                out@ == join_all(w.subrange(0, j)),
            decreases ar@.len() - k,
        {
            let (x, y) = ar[k];
            proof {
                assert(av[k as int] == w[j]);
            }
            push_piece(&mut out, s.substring_char(x, y), nd == 0 && k == c, Ghost(w), Ghost(j));
            proof {
                j = j + 1;
            }
            k += 1;
        }
        if ends_with_slash {
            proof {
                reveal_strlit("");
                assert(""@ =~= Seq::<char>::empty());
                assert(j == w.len() - 1);
            }
            push_piece(&mut out, "", nd == 0 && c == ar.len(), Ghost(w), Ghost(j));
            proof {
                j = j + 1;
            }
        }
        proof {
            assert(j == w.len());
            assert(w.subrange(0, j) =~= w);
        }
        let total_empty = nd == 0 && c == ar.len() && !ends_with_slash;
        if total_empty {
            proof {
                assert(w.len() == 0);
                reveal_strlit(".");
                assert("."@ =~= dot());
            }
            Path::from(".")
        } else {
            Path::from(out.as_str())
        }
    }

    /// Whether `other` starts with this path, or equals it.
    pub fn contains(&self, other: &Path) -> (r: bool)
        ensures
            r == (self@.is_prefix_of(other@) || other@ == self@),
    {
        let a = chars_of(self.path.as_str());
        let b = chars_of(other.path.as_str());
        if a.len() > b.len() {
            proof {
                assert(a@.len() != b@.len());
            }
            return false;
        }
        let mut i: usize = 0;
        while i < a.len()
            invariant
                a@ == self@,
                b@ == other@,
                a@.len() <= b@.len(),
                i <= a@.len(),
                forall|j: int| 0 <= j < i ==> a@[j] == b@[j],
            decreases a@.len() - i,
        {
            if a[i] != b[i] {
                proof {
                    assert(b@.subrange(0, a@.len() as int)[i as int] != a@[i as int]);
                }
                return false;
            }
            i += 1;
        }
        proof {
            assert(b@.subrange(0, a@.len() as int) =~= a@);
        }
        true
    }
}

pub proof fn lemma_common_from_bounds(a: Seq<Seq<char>>, b: Seq<Seq<char>>, k: nat)
    requires
        k <= a.len(),
        k <= b.len(),
    ensures
        k <= common_from(a, b, k) <= a.len(),
        common_from(a, b, k) <= b.len(),
        forall|j: int| k <= j < common_from(a, b, k) ==> a[j] == b[j],
    decreases a.len() - k,
{
    if k < a.len() && k < b.len() && a[k as int] == b[k as int] {
        lemma_common_from_bounds(a, b, k + 1);
    }
}

/// How long `cs` is once all trailing separators are gone.
fn trimmed_len(cs: &Vec<char>) -> (m: usize)
    ensures
        m <= cs@.len(),
        cs@.subrange(0, m as int) == trim_all_seps(cs@),
{
    let mut m = cs.len();
    proof {
        assert(cs@.subrange(0, m as int) =~= cs@);
    }
    while m > 0 && cs[m - 1] == '/'
        invariant
            m <= cs@.len(),
            trim_all_seps(cs@.subrange(0, m as int)) == trim_all_seps(cs@),
        decreases m,
    {
        assert(cs@.subrange(0, m as int).drop_last() =~= cs@.subrange(0, m - 1));
        m -= 1;
    }
    m
}

/// Whether `a[ra]` and `b[rb]` hold the same characters.
fn range_eq(a: &Vec<char>, ra: (usize, usize), b: &Vec<char>, rb: (usize, usize)) -> (r: bool)
    requires
        ra.0 <= ra.1 <= a@.len(),
        rb.0 <= rb.1 <= b@.len(),
    ensures
        r == (a@.subrange(ra.0 as int, ra.1 as int) == b@.subrange(rb.0 as int, rb.1 as int)),
{
    let ghost x = a@.subrange(ra.0 as int, ra.1 as int);
    let ghost y = b@.subrange(rb.0 as int, rb.1 as int);
    if ra.1 - ra.0 != rb.1 - rb.0 {
        assert(x.len() != y.len());
        return false;
    }
    let len = ra.1 - ra.0;
    let mut i: usize = 0;
    while i < len
        invariant
            len == ra.1 - ra.0,
            len == rb.1 - rb.0,
            ra.0 <= ra.1 <= a@.len(),
            rb.0 <= rb.1 <= b@.len(),
            x == a@.subrange(ra.0 as int, ra.1 as int),
            y == b@.subrange(rb.0 as int, rb.1 as int),
            i <= len,
            forall|j: int| 0 <= j < i ==> x[j] == y[j],
        decreases len - i,
    {
        if a[ra.0 + i] != b[rb.0 + i] {
            assert(x[i as int] != y[i as int]);
            return false;
        }
        i += 1;
    }
    assert(x =~= y);
    true
}

/// Appends the component `piece` to `out`, which holds the first `j`
/// components of `w` joined.
fn push_piece(
    out: &mut String,
    piece: &str,
    first: bool,
    Ghost(w): Ghost<Seq<Seq<char>>>,
    Ghost(j): Ghost<int>,
)
    requires
        0 <= j < w.len(),
        first == (j == 0),
        old(out)@ == join_all(w.subrange(0, j)),
        piece@ == w[j],
    ensures
        final(out)@ == join_all(w.subrange(0, j + 1)),
{
    let ghost before = out@;
    proof {
        lemma_join_prefix(w, j);
    }
    if !first {
        proof {
            reveal_strlit("/");
        }
        out.append("/");
    }
    out.append(piece);
    proof {
        if j > 0 {
            assert(out@ =~= before + seq!['/'] + w[j]);
        } else {
            assert(out@ =~= w[0]);
        }
    }
}

/// A walk over the prefixes of a path, one component at a time, from either
/// end.
pub struct PathIterator {
    source: String,
    components: Vec<(usize, usize)>,
    front_idx: usize,
    back_idx: usize,
    has_trailing_slash: bool,
    is_absolute: bool,
    reversed: bool,
}

impl PathIterator {
    /// The path being walked.
    pub closed spec fn source_view(&self) -> Seq<char> {
        self.source@
    }

    pub closed spec fn wf(&self) -> bool {
        &&& ranges_valid(self.source@.len(), self.components@)
        &&& ranges_view(self.source@, self.components@) == walk_comps(self.source@)
        &&& self.front_idx <= self.back_idx
        &&& self.back_idx <= self.components@.len()
        &&& self.has_trailing_slash == walk_trailing(self.source@)
        &&& self.is_absolute == spec_is_absolute(self.source@)
    }

    /// The prefix paths still to come, in the order `next` gives them.
    pub closed spec fn view(&self) -> Seq<Seq<char>> {
        let items = walk_range(self.source@, self.front_idx + 1, self.back_idx as int);
        if self.reversed {
            items.reverse()
        } else {
            items
        }
    }

    /// A walk over every prefix of `path`.
    pub fn new(path: &Path) -> (r: PathIterator)
        ensures
            r.wf(),
            r.view() == walk(path@),
    {
        let s = path.as_str();
        let cs = chars_of(s);
        let n = cs.len();
        let lead = n > 0 && cs[0] == '/';
        let a: usize = if lead {
            1
        } else {
            0
        };
        let e: usize = if n - a > 0 && cs[n - 1] == '/' {
            n - 1
        } else {
            n
        };
        let mut components: Vec<(usize, usize)> = Vec::new();
        if lead {
            components.push((0, 0));
        }
        let ghost head = ranges_view(cs@, components@);
        if e > a {
            let mut body = split_ranges(&cs, a, e);
            components.append(&mut body);
        }
        proof {
            let w = walk_comps(cs@);
            assert(cs@.subrange(0, 0) =~= Seq::<char>::empty());
            assert(ranges_view(cs@, components@) =~= w);
        }
        let back_idx = components.len();
        let r = PathIterator {
            source: String::from_str(s),
            components,
            front_idx: 0,
            back_idx,
            has_trailing_slash: n > 1 && cs[n - 1] == '/',
            is_absolute: lead,
            reversed: false,
        };
        proof {
            assert(r.view() =~= walk(path@));
        }
        r
    }

    /// The path of prefix `k`.
    fn prefix(&self, k: usize) -> (r: Path)
        requires
            self.wf(),
            1 <= k <= self.components@.len(),
        ensures
            r@ == resolve(walk_prefix(self.source@, k as int)),
    {
        if k == 1 && self.is_absolute {
            proof {
                lemma_resolve_root_fixed();
            }
            Path::root()
        } else {
            let mut joined = join_ranges(self.source.as_str(), &self.components, k);
            if self.has_trailing_slash {
                let ghost before = joined@;
                proof {
                    reveal_strlit("/");
                }
                joined.append("/");
                assert(joined@ =~= before + seq!['/']);
            } else {
                assert(joined@ =~= joined@ + Seq::<char>::empty());
            }
            Path::from(joined.as_str())
        }
    }

    fn take_front(&mut self) -> (r: Option<Path>)
        requires
            old(self).wf(),
        ensures
            final(self).wf(),
            final(self).reversed == old(self).reversed,
            final(self).source_view() == old(self).source_view(),
            old(self).front_idx == old(self).back_idx ==> r is None && *final(self) == *old(self),
            old(self).front_idx < old(self).back_idx ==> {
                &&& r is Some
                &&& r->0@ == resolve(walk_prefix(old(self).source@, old(self).front_idx + 1))
                &&& final(self).front_idx == old(self).front_idx + 1
                &&& final(self).back_idx == old(self).back_idx
            },
    {
        if self.front_idx == self.back_idx {
            return None;
        }
        let k = self.front_idx + 1;
        self.front_idx = k;
        Some(self.prefix(k))
    }

    fn take_back(&mut self) -> (r: Option<Path>)
        requires
            old(self).wf(),
        ensures
            final(self).wf(),
            final(self).reversed == old(self).reversed,
            final(self).source_view() == old(self).source_view(),
            old(self).front_idx == old(self).back_idx ==> r is None && *final(self) == *old(self),
            old(self).front_idx < old(self).back_idx ==> {
                &&& r is Some
                &&& r->0@ == resolve(walk_prefix(old(self).source@, old(self).back_idx as int))
                &&& final(self).front_idx == old(self).front_idx
                &&& final(self).back_idx == old(self).back_idx - 1
            },
    {
        if self.front_idx == self.back_idx {
            return None;
        }
        let k = self.back_idx;
        self.back_idx = k - 1;
        Some(self.prefix(k))
    }

    /// The next prefix path, or none when the walk is over.
    pub fn next(&mut self) -> (r: Option<Path>)
        requires
            old(self).wf(),
        ensures
            final(self).wf(),
            old(self).view().len() == 0 ==> r is None && final(self).view() == old(self).view(),
            old(self).view().len() > 0 ==> r is Some && r->0@ == old(self).view()[0]
                && final(self).view() == old(self).view().drop_first(),
    {
        let ghost before = self.view();
        let r = if self.reversed {
            self.take_back()
        } else {
            self.take_front()
        };
        proof {
            if before.len() > 0 {
                assert(self.view() =~= before.drop_first());
            }
        }
        r
    }

    /// The last prefix path still to come, or none when the walk is over.
    pub fn next_back(&mut self) -> (r: Option<Path>)
        requires
            old(self).wf(),
        ensures
            final(self).wf(),
            old(self).view().len() == 0 ==> r is None && final(self).view() == old(self).view(),
            old(self).view().len() > 0 ==> r is Some && r->0@ == old(self).view().last()
                && final(self).view() == old(self).view().drop_last(),
    {
        let ghost before = self.view();
        let r = if self.reversed {
            self.take_front()
        } else {
            self.take_back()
        };
        proof {
            if before.len() > 0 {
                assert(self.view() =~= before.drop_last());
            }
        }
        r
    }

    /// The same walk in the opposite direction.
    pub fn rev(self) -> (r: PathIterator)
        requires
            self.wf(),
        ensures
            r.wf(),
            r.view() == self.view().reverse(),
    {
        let r = PathIterator { reversed: !self.reversed, ..self };
        proof {
            let items = walk_range(self.source@, self.front_idx + 1, self.back_idx as int);
            assert(items.reverse().reverse() =~= items);
        }
        r
    }
}

/// Whether `cs[k..n]` is exactly `.d.ts`.
fn is_dts(cs: &Vec<char>, k: usize, n: usize) -> (r: bool)
    requires
        k <= n <= cs@.len(),
    ensures
        r == (cs@.subrange(k as int, n as int) == dts()),
{
    let r = n - k == 5 && cs[k] == '.' && cs[k + 1] == 'd' && cs[k + 2] == '.' && cs[k + 3] == 't'
        && cs[k + 4] == 's';
    proof {
        let t = cs@.subrange(k as int, n as int);
        if r {
            assert(t =~= dts());
        } else if t == dts() {
            assert(t.len() == 5);
            assert(t[0] == '.' && t[1] == 'd' && t[2] == '.' && t[3] == 't' && t[4] == 's');
        }
    }
    r
}

} // verus!
