//! Normalization of host path strings, as the host's path cleaning does it
//! (an empty result reads `.`), with a trailing separator kept.

use path_slash::PathBufExt;
use vstd::prelude::*;
use vstd::string::StrSliceExecFns;
use vstd::string::StringExecFns;

use crate::lexical::ends_with_sep;

verus! {

/// What `clean_path::clean` makes of a path string, read back with `/`.
pub uninterp spec fn cleaned(s: Seq<char>) -> Seq<char>;

/// Relies on `clean_path::clean`: the lexically cleaned path, whose
/// components `path_slash` writes back joined with `/`.
#[verifier::external_body]
fn clean(s: &str) -> (r: String)
    ensures
        r@ == cleaned(s@),
{
    clean_path::clean(s).to_slash_lossy().into_owned()
}

/// The cleaned form of `s`, with a trailing separator wherever `s` has one.
pub open spec fn spec_normalize_path(s: Seq<char>) -> Seq<char> {
    let c = cleaned(s);
    if ends_with_sep(s) && !ends_with_sep(c) {
        c.push('/')
    } else {
        c
    }
}

/// `cleaned`, with a separator put back at its end where `raw` has one and
/// `cleaned` has lost it.
pub fn keep_trailing_sep(raw: &str, cleaned: String) -> (r: String)
    ensures
        r@ == if ends_with_sep(raw@) && !ends_with_sep(cleaned@) {
            cleaned@.push('/')
        } else {
            cleaned@
        },
{
    let mut c = cleaned;
    let n = raw.unicode_len();
    let m = c.as_str().unicode_len();
    let trailing = n > 0 && raw.get_char(n - 1) == '/';
    let cleaned_trailing = m > 0 && c.as_str().get_char(m - 1) == '/';
    if trailing && !cleaned_trailing {
        let ghost before = c@;
        proof {
            reveal_strlit("/");
        }
        c.append("/");
        assert(c@ =~= before.push('/'));
    }
    c
}

/// Cleans the host path `raw` and keeps its trailing separator.
pub fn normalize_path(raw: &str) -> (r: String)
    ensures
        r@ == spec_normalize_path(raw@),
{
    let c = clean(raw);
    keep_trailing_sep(raw, c)
}

} // verus!
