//! The regular expression engine of the `regex` crate, as this library uses it: escaping
//! literal text, compiling a pattern, and reading one capture group of the first match.
use vstd::prelude::*;

use crate::text::is_ascii_digit;

verus! {

/// The `regex` crate's compiled regular expression, carried through opaquely.
#[verifier::external_type_specification]
#[verifier::external_body]
pub struct ExRegex(regex::Regex);

/// Characters with a special meaning in a regular expression, which `regex::escape` prefixes
/// with a backslash.
pub open spec fn is_regex_meta(c: char) -> bool {
    c == '\\' || c == '.' || c == '+' || c == '*' || c == '?' || c == '(' || c == ')' || c == '|'
        || c == '[' || c == ']' || c == '{' || c == '}' || c == '^' || c == '$' || c == '#'
        || c == '&' || c == '-' || c == '~'
}

/// `text` with a backslash put in front of every meta character, so that the result matches
/// `text` literally.
pub open spec fn regex_escaped(text: Seq<char>) -> Seq<char>
    decreases text.len(),
{
    if text.len() == 0 {
        Seq::empty()
    } else {
        let c = text[0];
        let head = if is_regex_meta(c) {
            seq!['\\', c]
        } else {
            seq![c]
        };
        head + regex_escaped(text.drop_first())
    }
}

/// The pattern that matches a whole text made of `prefix`, one or more ASCII digits, then
/// `suffix` (both taken literally), and captures the digits as group 1.
pub open spec fn digits_pattern(prefix: Seq<char>, suffix: Seq<char>) -> Seq<char> {
    "^"@ + regex_escaped(prefix) + "([[:digit:]]+)"@ + regex_escaped(suffix) + "$"@
}

/// The digits between `prefix` and `suffix`, when `text` is `prefix`, one or more ASCII
/// digits, then `suffix`; `None` otherwise.
pub open spec fn digits_between(prefix: Seq<char>, suffix: Seq<char>, text: Seq<char>) -> Option<
    Seq<char>,
> {
    let a = prefix.len() as int;
    let b = text.len() - suffix.len();
    if a < b && text.take(a) == prefix && text.skip(b) == suffix && forall|i: int|
        a <= i < b ==> is_ascii_digit(#[trigger] text[i]) {
        Some(text.subrange(a, b))
    } else {
        None
    }
}

/// Whether the `regex` crate accepts `pattern` (its syntax and its default size limit).
pub uninterp spec fn regex_compiles(pattern: Seq<char>) -> bool;

/// The text that capture group `group` covers in the first match of `pattern` in `haystack`,
/// or `None` when there is no match or the group took no part in it.
pub uninterp spec fn regex_capture(pattern: Seq<char>, haystack: Seq<char>, group: nat) -> Option<
    Seq<char>,
>;

/// A compiled regular expression, together with the pattern it was compiled from.
pub struct CompiledRegex {
    regex: regex::Regex,
    source: Ghost<Seq<char>>,
}

impl CompiledRegex {
    /// The pattern this regular expression was compiled from.
    pub closed spec fn source(&self) -> Seq<char> {
        self.source@
    }
}

/// Escapes all regular expression meta characters in `text`.
///
/// Trusted: calls `regex::escape`, which (through `regex_syntax::escape_into`) pushes a
/// backslash before each character for which `is_meta_character` holds, and copies every
/// character in order.
#[verifier::external_body]
pub(crate) fn escape(text: &str) -> (res: String)
    ensures
        res@ == regex_escaped(text@),
{
    regex::escape(text)
}

/// Compiles `pattern`.
///
/// Trusted: calls `regex::Regex::new`.  Whether it succeeds depends on the pattern alone; the
/// contract names that outcome and keeps the pattern beside the compiled expression.
#[verifier::external_body]
pub(crate) fn compile(pattern: &str) -> (res: Option<CompiledRegex>)
    ensures
        res is Some <==> regex_compiles(pattern@),
        res matches Some(r) ==> r.source() == pattern@,
{
    match regex::Regex::new(pattern) {
        Ok(regex) => Some(CompiledRegex { regex, source: Ghost(pattern@) }),
        Err(_) => None,
    }
}

/// The text of capture group `group` in the first match of `re` in `haystack`.
///
/// Trusted: calls `regex::Regex::captures`, then `Captures::get` and `Match::as_str`.  The
/// result is named by `regex_capture` over the pattern, the haystack and the group index.
/// For a pattern built by `digits_pattern`, the contract also states the match: the crate
/// documents `^` and `$` (without the multi-line flag) as the start and end of the haystack,
/// `[[:digit:]]` as the ASCII class `[0-9]`, `+` as one or more, and the output of `escape`
/// as matching its input literally; so the pattern matches exactly the haystacks made of the
/// prefix, one or more ASCII digits and the suffix, and group 1 is those digits (the prefix
/// and suffix lengths fix where they lie).
#[verifier::external_body]
pub(crate) fn capture_group(re: &CompiledRegex, haystack: &str, group: usize) -> (res: Option<String>)
    ensures
        match res {
            Some(s) => regex_capture(re.source(), haystack@, group as nat) == Some(s@),
            None => regex_capture(re.source(), haystack@, group as nat) is None,
        },
        forall|prefix: Seq<char>, suffix: Seq<char>|
            group == 1 && re.source() == #[trigger] digits_pattern(prefix, suffix) ==> match res {
                Some(s) => digits_between(prefix, suffix, haystack@) == Some(s@),
                None => digits_between(prefix, suffix, haystack@) is None,
            },
{
    match re.regex.captures(haystack) {
        Some(caps) => match caps.get(group) {
            Some(m) => Some(m.as_str().to_string()),
            None => None,
        },
        None => None,
    }
}

} // verus!
