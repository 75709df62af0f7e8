//! Grey levels can be represented using different space/time patterns.  This module defines
//! them: the shape of the cell each pattern covers, the names it is known by, and the order in
//! which the pixels of a cell light up as the grey level grows.
use vstd::prelude::*;

use crate::text::{ascii_lower, ascii_lower_char, str_eq, to_ascii_lower};

verus! {

/// A space/time pattern used to represent shades of grey.
#[derive(Debug, Clone, Copy, PartialEq, Eq, Structural)]
pub enum Pattern {
    /// Regular (non-random) pattern that uses 2 frames, and 2 by 2 grid in each frame.
    Regular2f2w2h,
}

impl Pattern {
    /// Number of frames in a group, as a mathematical value.
    pub open spec fn spec_frame_group_size(self) -> nat {
        match self {
            Pattern::Regular2f2w2h => 2,
        }
    }

    /// Width of a cell, as a mathematical value.
    pub open spec fn spec_width(self) -> nat {
        match self {
            Pattern::Regular2f2w2h => 2,
        }
    }

    /// Height of a cell, as a mathematical value.
    pub open spec fn spec_height(self) -> nat {
        match self {
            Pattern::Regular2f2w2h => 2,
        }
    }

    /// Number of frames this pattern processes as a single group.
    ///
    /// For patterns that do not group frames it is 1.
    pub fn frame_group_size(&self) -> (res: u32)
        ensures
            res == self.spec_frame_group_size(),
            res >= 1,
    {
        match self {
            Pattern::Regular2f2w2h => 2,
        }
    }

    /// Width of a single cell this pattern uses.
    pub fn width(&self) -> (res: u32)
        ensures
            res == self.spec_width(),
            res >= 1,
    {
        match self {
            Pattern::Regular2f2w2h => 2,
        }
    }

    /// Height of a single cell this pattern uses.
    pub fn height(&self) -> (res: u32)
        ensures
            res == self.spec_height(),
            res >= 1,
    {
        match self {
            Pattern::Regular2f2w2h => 2,
        }
    }
}


/// The name a pattern is written as on the command line and in messages.
pub open spec fn pattern_name(p: Pattern) -> Seq<char> {
    match p {
        Pattern::Regular2f2w2h => "r2f2w2h"@,
    }
}

/// What parsing `input` as a pattern name gives.  With `ignore_case` the input is compared
/// after ASCII lowercasing; the error message quotes the (possibly lowercased) input.
pub open spec fn parse_pattern(input: Seq<char>, ignore_case: bool) -> Result<Pattern, Seq<char>> {
    let s = if ignore_case {
        ascii_lower(input)
    } else {
        input
    };
    if s == "r2f2w2h"@ || s == "regular-2f2w2h"@ {
        Ok(Pattern::Regular2f2w2h)
    } else {
        Err("invalid pattern value: "@ + s)
    }
}

impl Pattern {
    /// All the patterns there are, in the order they are offered to the user.
    pub fn value_variants() -> (res: Vec<Pattern>)
        ensures
            res@ == seq![Pattern::Regular2f2w2h],
    {
        let mut res = Vec::new();
        res.push(Pattern::Regular2f2w2h);
        res
    }

    /// The name of the pattern, as accepted by `from_str`.
    pub fn to_string(&self) -> (res: String)
        ensures
            res@ == pattern_name(*self),
    {
        match self {
            Pattern::Regular2f2w2h => String::from_str("r2f2w2h"),
        }
    }

    /// Parses a pattern name.  `"r2f2w2h"` and `"regular-2f2w2h"` name the regular 2 frame,
    /// 2 by 2 pattern.  With `ignore_case`, ASCII letters are compared case-insensitively.
    pub fn from_str(input: &str, ignore_case: bool) -> (res: Result<Pattern, String>)
        ensures
            match (res, parse_pattern(input@, ignore_case)) {
                (Ok(p), Ok(q)) => p == q,
                (Err(e), Err(m)) => e@ == m,
                _ => false,
            },
    {
        let input: String = if ignore_case {
            to_ascii_lower(input)
        } else {
            String::from_str(input)
        };
        let short_name = "r2f2w2h";
        let long_name = "regular-2f2w2h";
        if str_eq(input.as_str(), short_name) || str_eq(input.as_str(), long_name) {
            Ok(Pattern::Regular2f2w2h)
        } else {
            let mut message = String::from_str("invalid pattern value: ");
            message.append(input.as_str());
            Err(message)
        }
    }
}

/// A pattern's name parses back to the same pattern, whether or not case is ignored.
pub proof fn lemma_name_round_trip(p: Pattern, ignore_case: bool)
    ensures
        parse_pattern(pattern_name(p), ignore_case) == Ok::<Pattern, Seq<char>>(p),
{
    reveal_strlit("r2f2w2h");
    reveal_strlit("regular-2f2w2h");
    assert(ascii_lower("r2f2w2h"@) =~= "r2f2w2h"@);
}

/// Parsing with `ignore_case` accepts exactly the inputs whose ASCII lowercase form parses
/// without it, and gives the same result for them.
pub proof fn lemma_ignore_case_is_lowercasing(input: Seq<char>)
    ensures
        parse_pattern(input, true) == parse_pattern(ascii_lower(input), false),
{
}

/// `input` is `name` with any of its lowercase ASCII letters written as capitals.
pub open spec fn case_variant(input: Seq<char>, name: Seq<char>) -> bool {
    &&& input.len() == name.len()
    &&& forall|i: int|
        0 <= i < name.len() ==> #[trigger] input[i] == name[i] || ('a' <= name[i] && name[i] <= 'z'
            && input[i] as u32 + 32 == name[i] as u32)
}

/// With `ignore_case`, an input names the pattern exactly when it is one of its names
/// (`r2f2w2h` or `regular-2f2w2h`) with any letters in capitals.
pub proof fn lemma_ignore_case_accepts_case_variants(input: Seq<char>)
    ensures
        (parse_pattern(input, true) == Ok::<Pattern, Seq<char>>(Pattern::Regular2f2w2h)) <==> (
        case_variant(input, "r2f2w2h"@) || case_variant(input, "regular-2f2w2h"@)),
{
    reveal_strlit("r2f2w2h");
    reveal_strlit("regular-2f2w2h");
    let low = ascii_lower(input);
    assert forall|name: Seq<char>|
        (name == "r2f2w2h"@ || name == "regular-2f2w2h"@) implies (low == name <==> case_variant(
        input,
        name,
    )) by {
        assert forall|i: int| 0 <= i < name.len() implies !('A' <= #[trigger] name[i] && name[i] <= 'Z') by {}
        if low == name {
            assert forall|i: int| 0 <= i < name.len() implies #[trigger] input[i] == name[i] || ('a'
                <= name[i] && name[i] <= 'z' && input[i] as u32 + 32 == name[i] as u32) by {
                assert(low[i] == ascii_lower_char(input[i]));
            }
        }
        if case_variant(input, name) {
            assert forall|i: int| 0 <= i < name.len() implies #[trigger] low[i] == name[i] by {
                assert(low[i] == ascii_lower_char(input[i]));
            }
            assert(low =~= name);
        }
    }
}

/// Every cell of a pattern is made of 8 pixels: the frames of a group times the cell's width
/// times its height.  These 8 pixels give the 8 levels of grey the pattern represents.
pub proof fn lemma_cell_has_eight_pixels(p: Pattern)
    ensures
        p.spec_frame_group_size() * p.spec_width() * p.spec_height() == 8,
{
}

} // verus!
