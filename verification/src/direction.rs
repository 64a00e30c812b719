//! Directions of traversal and the tokens that name them.

use vstd::prelude::*;
use crate::error::SortError;

verus! {

/// The way in which the paths of a pass run over the raster.
#[derive(Clone, Copy, Debug, PartialEq, Eq, Structural)]
pub enum SortType {
    /// Row by row, each row from left to right.
    HorizontalLR,
    /// Row by row, each row from right to left.
    HorizontalRL,
    /// Column by column, each column from top to bottom.
    VerticalUD,
    /// Column by column, each column from bottom to top.
    VerticalDU,
    /// Along one straight line between two endpoints.
    Line,
    /// Along a curve: a name kept for later, which sorts nothing.
    Bezier,
}

/// What `str::to_lowercase` makes of a string.
pub uninterp spec fn lowercase(text: Seq<char>) -> Seq<char>;

/// `str::to_lowercase`: the string with each character in lower case.
#[verifier::external_body]
fn to_lowercase(text: &str) -> (lower: String)
    ensures
        lower@ == lowercase(text@),
{
    text.to_lowercase()
}

/// `==` of `str`: whether two strings hold the same characters.
#[verifier::external_body]
fn same_text(a: &str, b: &str) -> (same: bool)
    ensures
        same == (a@ == b@),
{
    a == b
}

/// `+` of `String` and `&str`: the characters of `a` followed by those of
/// `b`.
#[verifier::external_body]
fn joined(a: String, b: &str) -> (both: String)
    ensures
        both@ == a@ + b@,
{
    a + b
}

/// The direction that a token in lower case names, if it names one.
pub open spec fn direction_named(token: Seq<char>) -> Option<SortType> {
    if token == "vertical-du"@ {
        Some(SortType::VerticalDU)
    } else if token == "vertical-ud"@ {
        Some(SortType::VerticalUD)
    } else if token == "horizontal-lr"@ {
        Some(SortType::HorizontalLR)
    } else if token == "horizontal-rl"@ {
        Some(SortType::HorizontalRL)
    } else if token == "line"@ {
        Some(SortType::Line)
    } else if token == "bezier"@ {
        Some(SortType::Bezier)
    } else {
        None
    }
}

impl SortType {
    /// The direction that `token` names. The token is matched as it stands,
    /// letter for letter.
    pub fn from_token(token: &str) -> (parsed: Result<SortType, SortError>)
        ensures
            parsed == match direction_named(token@) {
                Some(sort_type) => Ok::<SortType, SortError>(sort_type),
                None => Err(SortError::InvalidDirection),
            },
    {
        if same_text(token, "vertical-du") {
            Ok(SortType::VerticalDU)
        } else if same_text(token, "vertical-ud") {
            Ok(SortType::VerticalUD)
        } else if same_text(token, "horizontal-lr") {
            Ok(SortType::HorizontalLR)
        } else if same_text(token, "horizontal-rl") {
            Ok(SortType::HorizontalRL)
        } else if same_text(token, "line") {
            Ok(SortType::Line)
        } else if same_text(token, "bezier") {
            Ok(SortType::Bezier)
        } else {
            Err(SortError::InvalidDirection)
        }
    }

    /// The letters that mark the output of a pass in this direction.
    pub open spec fn prefix_of(self) -> Seq<char> {
        match self {
            SortType::HorizontalLR => "HLR-"@,
            SortType::HorizontalRL => "HRL-"@,
            SortType::VerticalUD => "VUD-"@,
            SortType::VerticalDU => "VDU-"@,
            SortType::Line => "LINE-"@,
            SortType::Bezier => ""@,
        }
    }

    /// The letters that mark the output of a pass in this direction; none
    /// for `Bezier`, whose pass changes nothing.
    pub fn prefix(&self) -> (letters: &'static str)
        ensures
            letters@ == self.prefix_of(),
    {
        match self {
            SortType::HorizontalLR => "HLR-",
            SortType::HorizontalRL => "HRL-",
            SortType::VerticalUD => "VUD-",
            SortType::VerticalDU => "VDU-",
            SortType::Line => "LINE-",
            SortType::Bezier => "",
        }
    }

    /// The name under which the output for the input called `name` is kept:
    /// the direction's prefix, then `name`.
    pub fn output_name(&self, name: &str) -> (named: String)
        ensures
            named@ == self.prefix_of() + name@,
    {
        joined(self.prefix().to_owned(), name)
    }

    /// The direction that `value` names once it is put in lower case, or
    /// `InvalidDirection` if it names none.
    pub fn parse(value: &str) -> (parsed: Result<SortType, SortError>)
        ensures
            parsed == match direction_named(lowercase(value@)) {
                Some(sort_type) => Ok::<SortType, SortError>(sort_type),
                None => Err(SortError::InvalidDirection),
            },
    {
        let lower = to_lowercase(value);
        SortType::from_token(lower.as_str())
    }
}

} // verus!
