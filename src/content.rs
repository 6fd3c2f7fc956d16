//! The decision behind writing a file only when its content changes.

use vstd::prelude::*;

verus! {

/// Whether a file whose current content is `current` (none where it is
/// missing) must be written to hold `data`.
pub fn content_differs(current: Option<&[u8]>, data: &[u8]) -> (r: bool)
    ensures
        r == match current {
            Some(c) => c@ != data@,
            None => true,
        },
{
    match current {
        None => true,
        Some(c) => {
            if c.len() != data.len() {
                assert(c@.len() != data@.len());
                return true;
            }
            let mut i: usize = 0;
            while i < c.len()
                invariant
                    current == Some(c),
                    c@.len() == data@.len(),
                    i <= c@.len(),
                    forall|j: int| 0 <= j < i ==> c@[j] == data@[j],
                decreases c@.len() - i,
            {
                if c[i] != data[i] {
                    assert(c@[i as int] != data@[i as int]);
                    return true;
                }
                i += 1;
            }
            assert(c@ =~= data@);
            false
        },
    }
}

} // verus!
