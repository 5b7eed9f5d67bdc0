//! Text boxes: their horizontal text alignment.

use vstd::prelude::*;
use crate::vpx::text::str_equals;

verus! {

/// Horizontal text alignment of a text box, mirroring vpinball's `TextAlignment`.
///
/// Values this library does not know are kept in [`TextAlignment::Other`]
/// so the table round-trips unchanged.
#[derive(Debug, PartialEq, Eq, Structural, Clone, Copy)]
pub enum TextAlignment {
    /// `TextAlignLeft`
    Left,
    /// `TextAlignCenter`
    Center,
    /// `TextAlignRight`
    Right,
    /// A value not known to this library, kept as is.
    ///
    /// Must not be constructed with a value that maps to a named variant:
    /// it would write the same bytes as the named variant and read back as
    /// it. The library itself never does (`From` normalizes known values to
    /// their named variants).
    Other(u32),
}

impl Default for TextAlignment {
    fn default() -> (r: Self)
        ensures
            r == TextAlignment::Left,
    {
        TextAlignment::Left
    }
}

/// The text alignment that a stored raw value stands for.
pub open spec fn text_alignment_from_raw(value: u32) -> TextAlignment {
    match value {
        0 => TextAlignment::Left,
        1 => TextAlignment::Center,
        2 => TextAlignment::Right,
        other => TextAlignment::Other(other),
    }
}

/// The raw value stored for a text alignment.
pub open spec fn text_alignment_to_raw(value: TextAlignment) -> u32 {
    match value {
        TextAlignment::Left => 0,
        TextAlignment::Center => 1,
        TextAlignment::Right => 2,
        TextAlignment::Other(v) => v,
    }
}

/// A text alignment in the one form that reading gives: `Other` only
/// holds a value that no named variant stands for.
pub open spec fn text_alignment_is_normal(value: TextAlignment) -> bool {
    match value {
        TextAlignment::Other(v) => v > 2,
        _ => true,
    }
}

impl From<u32> for TextAlignment {
    fn from(value: u32) -> (r: Self)
        ensures
            r == text_alignment_from_raw(value),
    {
        match value {
            0 => TextAlignment::Left,
            1 => TextAlignment::Center,
            2 => TextAlignment::Right,
            other => TextAlignment::Other(other),
        }
    }
}

impl vstd::std_specs::convert::FromSpecImpl<u32> for TextAlignment {
    open spec fn obeys_from_spec() -> bool {
        true
    }

    open spec fn from_spec(value: u32) -> Self {
        text_alignment_from_raw(value)
    }
}

impl From<&TextAlignment> for u32 {
    fn from(value: &TextAlignment) -> (r: Self)
        ensures
            r == text_alignment_to_raw(*value),
    {
        match value {
            TextAlignment::Left => 0,
            TextAlignment::Center => 1,
            TextAlignment::Right => 2,
            TextAlignment::Other(value) => *value,
        }
    }
}

impl vstd::std_specs::convert::FromSpecImpl<&TextAlignment> for u32 {
    open spec fn obeys_from_spec() -> bool {
        true
    }

    open spec fn from_spec(value: &TextAlignment) -> Self {
        text_alignment_to_raw(*value)
    }
}

/// Every raw value is written back as it was read, known or not.
pub proof fn lemma_text_alignment_raw_round_trip(value: u32)
    ensures
        text_alignment_to_raw(text_alignment_from_raw(value)) == value,
        text_alignment_is_normal(text_alignment_from_raw(value)),
{
}

/// A text alignment in its normal form reads back as itself once written.
pub proof fn lemma_text_alignment_value_round_trip(value: TextAlignment)
    requires
        text_alignment_is_normal(value),
    ensures
        text_alignment_from_raw(text_alignment_to_raw(value)) == value,
{
}

/// The name a text alignment is written under in JSON; `None` for
/// [`TextAlignment::Other`], which is written as its raw number.
pub open spec fn text_alignment_json_name(value: TextAlignment) -> Option<Seq<char>> {
    match value {
        TextAlignment::Left => Some("left"@),
        TextAlignment::Center => Some("center"@),
        TextAlignment::Right => Some("right"@),
        TextAlignment::Other(_) => None,
    }
}

/// What a JSON name stands for; `None` for any other name.
pub open spec fn text_alignment_from_json_name(name: Seq<char>) -> Option<TextAlignment> {
    if name == "left"@ {
        Some(TextAlignment::Left)
    } else if name == "center"@ {
        Some(TextAlignment::Center)
    } else if name == "right"@ {
        Some(TextAlignment::Right)
    } else {
        None
    }
}

impl TextAlignment {
    /// The name this value is written under in JSON, `None` for a value
    /// written as its raw number.
    pub fn json_name(&self) -> (r: Option<&'static str>)
        ensures
            match r {
                Some(s) => text_alignment_json_name(*self) == Some(s@),
                None => text_alignment_json_name(*self) is None,
            },
    {
        match self {
            TextAlignment::Left => Some("left"),
            TextAlignment::Center => Some("center"),
            TextAlignment::Right => Some("right"),
            TextAlignment::Other(_) => None,
        }
    }

    /// What a JSON name stands for; `None` for any other name.
    pub fn from_json_name(name: &str) -> (r: Option<TextAlignment>)
        ensures
            r == text_alignment_from_json_name(name@),
    {
        if str_equals(name, "left") {
            Some(TextAlignment::Left)
        } else if str_equals(name, "center") {
            Some(TextAlignment::Center)
        } else if str_equals(name, "right") {
            Some(TextAlignment::Right)
        } else {
            None
        }
    }
}

/// Every named value reads back from its JSON name.
pub proof fn lemma_text_alignment_json_name_round_trip(value: TextAlignment)
    ensures
        text_alignment_json_name(value) matches Some(name) ==> text_alignment_from_json_name(name) == Some(value),
{
    reveal_strlit("left");
    reveal_strlit("center");
    reveal_strlit("right");
    assert("left"@.len() != "center"@.len());
    assert("left"@.len() != "right"@.len());
    assert("center"@.len() != "right"@.len());
}

/// The raw values and JSON names that the table format gives the text
/// alignments: left 0, center 1, right 2; every other raw value is kept as
/// it is.
pub proof fn lemma_text_alignment_stored_values()
    ensures
        text_alignment_to_raw(TextAlignment::Left) == 0,
        text_alignment_to_raw(TextAlignment::Center) == 1,
        text_alignment_to_raw(TextAlignment::Right) == 2,
        text_alignment_from_raw(0) == TextAlignment::Left,
        text_alignment_from_raw(1) == TextAlignment::Center,
        text_alignment_from_raw(2) == TextAlignment::Right,
        forall|v: u32| v > 2 ==> #[trigger] text_alignment_from_raw(v) == TextAlignment::Other(v),
        forall|v: u32| #[trigger] text_alignment_to_raw(TextAlignment::Other(v)) == v,
        text_alignment_json_name(TextAlignment::Left) == Some("left"@),
        text_alignment_json_name(TextAlignment::Center) == Some("center"@),
        text_alignment_json_name(TextAlignment::Right) == Some("right"@),
        forall|v: u32| #[trigger] text_alignment_json_name(TextAlignment::Other(v)) is None,
{
}

} // verus!
