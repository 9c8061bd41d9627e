use vstd::prelude::*;
use vstd::string::StrSliceExecFns;

verus! {

/// The text starts with the character `c`.
pub open spec fn starts_with_spec(s: Seq<char>, c: char) -> bool {
    s.len() > 0 && s[0] == c
}

/// Returns *true* if the text starts with the character `c`.
pub fn starts_with_char(s: &str, c: char) -> (b: bool)
    ensures
        b == starts_with_spec(s@, c),
{
    s.unicode_len() > 0 && s.get_char(0) == c
}

/// Returns *true* if the character `c` occurs in the text.
pub fn contains_char(s: &str, c: char) -> (b: bool)
    ensures
        b == s@.contains(c),
{
    let len = s.unicode_len();
    let mut i: usize = 0;
    while i < len
        invariant
            i <= len,
            len == s@.len(),
            forall|j: int| 0 <= j < i ==> s@[j] != c,
        decreases len - i,
    {
        if s.get_char(i) == c {
            return true;
        }
        i += 1;
    }
    false
}

} // verus!
