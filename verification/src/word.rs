use vstd::prelude::*;
use vstd::string::StringSliceAdditionalSpecFns;
use crate::error::Error;

verus! {

/// A puzzle word: exactly five single-byte characters.
pub type Word = [u8; 5];

/// Parses a word from a string. The word must be exactly five bytes long;
/// anything else is a construction-time failure.
pub fn word_from_str(s: &str) -> (r: Result<Word, Error>)
    ensures
        s.spec_bytes().len() == 5 ==> r is Ok && r->Ok_0@ == s.spec_bytes(),
        s.spec_bytes().len() != 5 ==> r == Err::<Word, Error>(Error::MalformedWord),
{
    let bytes: &[u8] = s.as_bytes();
    if bytes.len() != 5 {
        return Err(Error::MalformedWord);
    }
    let w: Word = [bytes[0], bytes[1], bytes[2], bytes[3], bytes[4]];
    proof {
        assert(w@ =~= s.spec_bytes());
    }
    Ok(w)
}

/// Relies on `char::from(u8)` (the `u8` to `char` cast) and on collecting an
/// iterator of characters into a `String`: each byte becomes the character
/// with that code point, in order.
#[verifier::external_body]
pub(crate) fn word_to_string(w: &Word) -> (r: String)
    ensures
        r@ == w@.map_values(|b: u8| b as char),
{
    w.iter().map(|b| *b as char).collect()
}

/// Whether two words are the same word.
pub fn word_eq(a: &Word, b: &Word) -> (r: bool)
    ensures
        r == (*a == *b),
{
    broadcast use vstd::array::group_array_axioms;

    let mut i: usize = 0;
    while i < 5
        invariant
            i <= 5,
            forall|j: int| 0 <= j < i ==> a@[j] == b@[j],
        decreases 5 - i,
    {
        if a[i] != b[i] {
            proof {
                assert(a@[i as int] != b@[i as int]);
            }
            return false;
        }
        i += 1;
    }
    proof {
        assert(*a =~= *b);
    }
    true
}

/// Whether `w` contains the letter `c` at some position.
pub fn word_contains(w: &Word, c: u8) -> (r: bool)
    ensures
        r == w@.contains(c),
{
    let mut i: usize = 0;
    while i < 5
        invariant
            0 <= i <= 5,
            forall|j: int| 0 <= j < i ==> w@[j] != c,
        decreases 5 - i,
    {
        if w[i] == c {
            return true;
        }
        i += 1;
    }
    false
}

} // verus!
