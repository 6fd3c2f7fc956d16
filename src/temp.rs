//! Names for fresh temporary directories: a pattern whose `<>` is replaced
//! by a nonce that the caller supplies (the time, say), written as 32
//! lower-case hexadecimal digits.

use vstd::prelude::*;
use vstd::string::StrSliceExecFns;
use vstd::string::StringExecFns;

verus! {

/// The lower-case hexadecimal digits.
pub open spec fn hex_alphabet() -> Seq<char> {
    seq!['0', '1', '2', '3', '4', '5', '6', '7', '8', '9', 'a', 'b', 'c', 'd', 'e', 'f']
}

/// The lower-case hexadecimal digit of `d`, below 16.
pub open spec fn hex_digit(d: nat) -> char {
    hex_alphabet()[d as int]
}

/// The last `k` hexadecimal digits of `n`, most significant first.
pub open spec fn hex_digits(n: nat, k: nat) -> Seq<char>
    decreases k,
{
    if k == 0 {
        Seq::empty()
    } else {
        hex_digits(n / 16, (k - 1) as nat).push(hex_digit(n % 16))
    }
}

/// The digit `d` as a string.
fn hex_digit_str(d: u128) -> (r: &'static str)
    requires
        d < 16,
    ensures
        r@ == seq![hex_digit(d as nat)],
{
    let digits = "0123456789abcdef";
    proof {
        reveal_strlit("0123456789abcdef");
        assert(digits@ =~= hex_alphabet());
    }
    let r = digits.substring_char(d as usize, d as usize + 1);
    assert(r@ =~= seq![hex_digit(d as nat)]);
    r
}

/// The last `k` hexadecimal digits of `n`, most significant first.
fn hex_string(n: u128, k: usize) -> (r: String)
    ensures
        r@ == hex_digits(n as nat, k as nat),
    decreases k,
{
    if k == 0 {
        String::new()
    } else {
        let mut r = hex_string(n / 16, k - 1);
        r.append(hex_digit_str(n % 16));
        r
    }
}

/// The position of the first `<>` in `s`, if any.
pub open spec fn marker_at(s: Seq<char>, i: int) -> bool {
    0 <= i && i + 1 < s.len() && s[i] == '<' && s[i + 1] == '>'
}

/// The name that `pattern` gives with its first `<>` replaced by `nonce`.
pub open spec fn spec_temp_name(pattern: Seq<char>, i: int, nonce: nat) -> Seq<char> {
    pattern.subrange(0, i) + hex_digits(nonce, 32) + pattern.subrange(i + 2, pattern.len() as int)
}

/// The directory name that `pattern` gives for `nonce`: its first `<>`
/// replaced by the nonce's 32 hexadecimal digits; none where the pattern
/// holds no `<>`.
pub fn temp_name(pattern: &str, nonce: u128) -> (r: Option<String>)
    ensures
        match r {
            Some(name) => exists|i: int|
                marker_at(pattern@, i) && (forall|j: int| 0 <= j < i ==> !marker_at(pattern@, j))
                    && name@ == spec_temp_name(pattern@, i, nonce as nat),
            None => forall|i: int| !marker_at(pattern@, i),
        },
{
    let n = pattern.unicode_len();
    let mut i: usize = 0;
    while n >= 2 && i < n - 1
        invariant
            n == pattern@.len(),
            i <= n,
            forall|j: int| 0 <= j < i ==> !marker_at(pattern@, j),
        decreases n - i,
    {
        if pattern.get_char(i) == '<' && pattern.get_char(i + 1) == '>' {
            let mut name = String::from_str(pattern.substring_char(0, i));
            let digits = hex_string(nonce, 32);
            name.append(digits.as_str());
            name.append(pattern.substring_char(i + 2, n));
            assert(marker_at(pattern@, i as int));
            assert(name@ =~= spec_temp_name(pattern@, i as int, nonce as nat));
            return Some(name);
        }
        i += 1;
    }
    assert forall|j: int| !marker_at(pattern@, j) by {
        if 0 <= j && j + 1 < n {
            assert(j < i || n < 2);
        }
    }
    None
}

} // verus!
