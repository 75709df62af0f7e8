//! Small verified helpers for working with text as sequences of characters.
use vstd::prelude::*;

verus! {

/// `c` is an ASCII decimal digit.
pub open spec fn is_ascii_digit(c: char) -> bool {
    '0' <= c && c <= '9'
}

/// ASCII lowercase of a single character: `'A'..='Z'` map to `'a'..='z'`, everything else is
/// left as it is.
pub open spec fn ascii_lower_char(c: char) -> char {
    if 'A' <= c && c <= 'Z' {
        ((c as u32) + 32) as char
    } else {
        c
    }
}

/// Lowercasing one character leaves no ASCII capital: a capital becomes the letter 32 code
/// points above it, and every other character stays as it is.
pub proof fn lemma_ascii_lower_char(c: char)
    ensures
        !('A' <= ascii_lower_char(c) && ascii_lower_char(c) <= 'Z'),
        ascii_lower_char(c) == c || ascii_lower_char(c) as u32 == c as u32 + 32,
        ascii_lower_char(c) != c ==> 'A' <= c && c <= 'Z',
        ascii_lower_char(ascii_lower_char(c)) == ascii_lower_char(c),
{
}

/// ASCII lowercase of a whole text.
pub open spec fn ascii_lower(s: Seq<char>) -> Seq<char> {
    s.map_values(|c: char| ascii_lower_char(c))
}

/// Appends one character to a string.
///
/// Trusted: calls `String::push`, which std documents as appending the given `char` to the
/// end of the string.
#[verifier::external_body]
pub(crate) fn push_char(s: &mut String, c: char)
    ensures
        final(s)@ == old(s)@.push(c),
{
    s.push(c);
}

/// ASCII lowercase of one character.
pub fn to_ascii_lower_char(c: char) -> (res: char)
    ensures
        res == ascii_lower_char(c),
{
    if 'A' <= c && c <= 'Z' {
        let code: u32 = c as u32;
        let lower: u8 = (code + 32) as u8;
        lower as char
    } else {
        c
    }
}

/// Copy of `s` with every ASCII uppercase letter replaced by its lowercase form.
pub fn to_ascii_lower(s: &str) -> (res: String)
    ensures
        res@ == ascii_lower(s@),
{
    let n = s.unicode_len();
    let mut res = String::new();
    let mut i: usize = 0;
    while i < n
        invariant
            n == s@.len(),
            i <= n,
            res@ == ascii_lower(s@.take(i as int)),
        decreases n - i,
    {
        let c = s.get_char(i);
        push_char(&mut res, to_ascii_lower_char(c));
        assert(s@.take(i + 1) == s@.take(i as int).push(c));
        i = i + 1;
    }
    assert(s@.take(n as int) == s@);
    res
}

/// Whether two texts hold the same characters.
pub fn str_eq(a: &str, b: &str) -> (res: bool)
    ensures
        res == (a@ == b@),
{
    let n = a.unicode_len();
    let m = b.unicode_len();
    if n != m {
        return false;
    }
    let mut i: usize = 0;
    while i < n
        invariant
            n == a@.len(),
            n == b@.len(),
            i <= n,
            forall|k: int| 0 <= k < i ==> a@[k] == b@[k],
        decreases n - i,
    {
        if a.get_char(i) != b.get_char(i) {
            return false;
        }
        i = i + 1;
    }
    assert(a@ == b@);
    true
}

} // verus!
