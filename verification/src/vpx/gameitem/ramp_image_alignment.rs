//! How the ramp image is mapped onto the ramp, stored in the `ALGN` tag.

use vstd::prelude::*;
use crate::vpx::text::str_equals;

verus! {

/// How the ramp image is mapped onto the ramp, stored in the `ALGN` tag.
///
/// Mirrors vpinball's `ImageAlignment` enum (`ImageAlignWorld`,
/// `ImageAlignTopLeft`, `ImageAlignCenter`) as used by ramps, where the
/// editor only offers the first two as "World" and "Wrap".
///
/// Values this library does not know are kept in [`RampImageAlignment::Other`]
/// so the table round-trips unchanged.
#[derive(Debug, PartialEq, Eq, Structural, Clone, Copy)]
pub enum RampImageAlignment {
    /// `ImageAlignWorld`: the image is projected in table space.
    World,
    /// `ImageAlignTopLeft`: the image is wrapped along the ramp.
    Wrap,
    /// `ImageAlignCenter`, which the ramp editor does not offer. Kept under
    /// its historical name for compatibility with existing expanded tables.
    Unknown,
    /// A value not known to this library, kept as is.
    ///
    /// Must not be constructed with a value that maps to a named variant:
    /// it would write the same bytes as the named variant and read back as
    /// it. The library itself never does (`From` normalizes known values to
    /// their named variants).
    Other(u32),
}

/// The alignment that a stored raw value stands for.
pub open spec fn ramp_image_alignment_from_raw(value: u32) -> RampImageAlignment {
    match value {
        0 => RampImageAlignment::World,
        1 => RampImageAlignment::Wrap,
        2 => RampImageAlignment::Unknown,
        other => RampImageAlignment::Other(other),
    }
}

/// The raw value stored for an alignment.
pub open spec fn ramp_image_alignment_to_raw(value: RampImageAlignment) -> u32 {
    match value {
        RampImageAlignment::World => 0,
        RampImageAlignment::Wrap => 1,
        RampImageAlignment::Unknown => 2,
        RampImageAlignment::Other(v) => v,
    }
}

/// An alignment in the one form that reading gives: `Other` only holds a
/// value that no named variant stands for.
pub open spec fn ramp_image_alignment_is_normal(value: RampImageAlignment) -> bool {
    match value {
        RampImageAlignment::Other(v) => v > 2,
        _ => true,
    }
}

impl From<u32> for RampImageAlignment {
    fn from(value: u32) -> (r: Self)
        ensures
            r == ramp_image_alignment_from_raw(value),
    {
        match value {
            0 => RampImageAlignment::World,
            1 => RampImageAlignment::Wrap,
            2 => RampImageAlignment::Unknown,
            other => RampImageAlignment::Other(other),
        }
    }
}

impl vstd::std_specs::convert::FromSpecImpl<u32> for RampImageAlignment {
    open spec fn obeys_from_spec() -> bool {
        true
    }

    open spec fn from_spec(value: u32) -> Self {
        ramp_image_alignment_from_raw(value)
    }
}

impl From<&RampImageAlignment> for u32 {
    fn from(value: &RampImageAlignment) -> (r: Self)
        ensures
            r == ramp_image_alignment_to_raw(*value),
    {
        match value {
            RampImageAlignment::World => 0,
            RampImageAlignment::Wrap => 1,
            RampImageAlignment::Unknown => 2,
            RampImageAlignment::Other(value) => *value,
        }
    }
}

impl vstd::std_specs::convert::FromSpecImpl<&RampImageAlignment> for u32 {
    open spec fn obeys_from_spec() -> bool {
        true
    }

    open spec fn from_spec(value: &RampImageAlignment) -> Self {
        ramp_image_alignment_to_raw(*value)
    }
}

/// Every raw value is written back as it was read, known or not.
pub proof fn lemma_ramp_image_alignment_raw_round_trip(value: u32)
    ensures
        ramp_image_alignment_to_raw(ramp_image_alignment_from_raw(value)) == value,
        ramp_image_alignment_is_normal(ramp_image_alignment_from_raw(value)),
{
}

/// An alignment in its normal form reads back as itself once written.
pub proof fn lemma_ramp_image_alignment_value_round_trip(value: RampImageAlignment)
    requires
        ramp_image_alignment_is_normal(value),
    ensures
        ramp_image_alignment_from_raw(ramp_image_alignment_to_raw(value)) == value,
{
}

/// The name a ramp image alignment is written under in JSON; `None` for
/// [`RampImageAlignment::Other`], which is written as its raw number.
pub open spec fn ramp_image_alignment_json_name(value: RampImageAlignment) -> Option<Seq<char>> {
    match value {
        RampImageAlignment::World => Some("world"@),
        RampImageAlignment::Wrap => Some("wrap"@),
        RampImageAlignment::Unknown => Some("unknown"@),
        RampImageAlignment::Other(_) => None,
    }
}

/// What a JSON name stands for; `None` for any other name.
pub open spec fn ramp_image_alignment_from_json_name(name: Seq<char>) -> Option<RampImageAlignment> {
    if name == "world"@ {
        Some(RampImageAlignment::World)
    } else if name == "wrap"@ {
        Some(RampImageAlignment::Wrap)
    } else if name == "unknown"@ {
        Some(RampImageAlignment::Unknown)
    } else {
        None
    }
}

impl RampImageAlignment {
    /// The name this value is written under in JSON, `None` for a value
    /// written as its raw number.
    pub fn json_name(&self) -> (r: Option<&'static str>)
        ensures
            match r {
                Some(s) => ramp_image_alignment_json_name(*self) == Some(s@),
                None => ramp_image_alignment_json_name(*self) is None,
            },
    {
        match self {
            RampImageAlignment::World => Some("world"),
            RampImageAlignment::Wrap => Some("wrap"),
            RampImageAlignment::Unknown => Some("unknown"),
            RampImageAlignment::Other(_) => None,
        }
    }

    /// What a JSON name stands for; `None` for any other name.
    pub fn from_json_name(name: &str) -> (r: Option<RampImageAlignment>)
        ensures
            r == ramp_image_alignment_from_json_name(name@),
    {
        if str_equals(name, "world") {
            Some(RampImageAlignment::World)
        } else if str_equals(name, "wrap") {
            Some(RampImageAlignment::Wrap)
        } else if str_equals(name, "unknown") {
            Some(RampImageAlignment::Unknown)
        } else {
            None
        }
    }
}

/// Every named value reads back from its JSON name.
pub proof fn lemma_ramp_image_alignment_json_name_round_trip(value: RampImageAlignment)
    ensures
        ramp_image_alignment_json_name(value) matches Some(name) ==> ramp_image_alignment_from_json_name(name) == Some(value),
{
    reveal_strlit("world");
    reveal_strlit("wrap");
    reveal_strlit("unknown");
    assert("world"@.len() != "wrap"@.len());
    assert("world"@.len() != "unknown"@.len());
    assert("wrap"@.len() != "unknown"@.len());
}

/// The raw values and JSON names that the table format gives the ramp
/// image alignments: world 0, wrap 1, unknown 2; every other raw value is
/// kept as it is.
pub proof fn lemma_ramp_image_alignment_stored_values()
    ensures
        ramp_image_alignment_to_raw(RampImageAlignment::World) == 0,
        ramp_image_alignment_to_raw(RampImageAlignment::Wrap) == 1,
        ramp_image_alignment_to_raw(RampImageAlignment::Unknown) == 2,
        ramp_image_alignment_from_raw(0) == RampImageAlignment::World,
        ramp_image_alignment_from_raw(1) == RampImageAlignment::Wrap,
        ramp_image_alignment_from_raw(2) == RampImageAlignment::Unknown,
        forall|v: u32| v > 2 ==> #[trigger] ramp_image_alignment_from_raw(v) == RampImageAlignment::Other(v),
        forall|v: u32| #[trigger] ramp_image_alignment_to_raw(RampImageAlignment::Other(v)) == v,
        ramp_image_alignment_json_name(RampImageAlignment::World) == Some("world"@),
        ramp_image_alignment_json_name(RampImageAlignment::Wrap) == Some("wrap"@),
        ramp_image_alignment_json_name(RampImageAlignment::Unknown) == Some("unknown"@),
        forall|v: u32| #[trigger] ramp_image_alignment_json_name(RampImageAlignment::Other(v)) is None,
{
}

} // verus!
