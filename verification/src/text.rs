//! ASCII byte strings turned into owned strings.

use vstd::prelude::*;

verus! {

/// The characters an ASCII byte string spells.
pub open spec fn chars_of_bytes(v: Seq<u8>) -> Seq<char> {
    v.map_values(|b: u8| b as char)
}

/// Relies on alloc's `String::from_utf8_lossy`: bytes below 128 are their
/// own UTF-8 encoding, so they decode to the characters with the same
/// codes, with nothing replaced.
#[verifier::external_body]
pub fn ascii_string(v: &Vec<u8>) -> (s: String)
    requires
        forall|i: int| 0 <= i < v@.len() ==> #[trigger] v@[i] < 128,
    ensures
        s@ == chars_of_bytes(v@),
{
    String::from_utf8_lossy(v.as_slice()).into_owned()
}

/// Builds the string an ASCII byte string spells, or nothing when a byte
/// is outside the ASCII range.
pub fn ascii_string_checked(v: &Vec<u8>) -> (r: Option<String>)
    ensures
        match r {
            Some(s) => (forall|i: int| 0 <= i < v@.len() ==> #[trigger] v@[i] < 128) && s@
                == chars_of_bytes(v@),
            None => exists|i: int| 0 <= i < v@.len() && #[trigger] v@[i] >= 128,
        },
{
    let n = v.len();
    let mut i: usize = 0;
    while i < n
        invariant
            0 <= i <= n,
            n == v@.len(),
            forall|t: int| 0 <= t < i ==> #[trigger] v@[t] < 128,
        decreases n - i,
    {
        if v[i] >= 128 {
            return None;
        }
        i = i + 1;
    }
    Some(ascii_string(v))
}

} // verus!
