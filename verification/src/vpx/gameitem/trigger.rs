//! Triggers: the visual shape of a trigger.

use vstd::prelude::*;
use crate::vpx::text::str_equals;

verus! {

/// The visual shape of a trigger.
///
/// Values this library does not know are kept in [`TriggerShape::Other`]
/// so the table round-trips unchanged.
#[derive(Debug, PartialEq, Eq, Structural, Clone, Copy)]
pub enum TriggerShape {
    /// No visible mesh (invisible trigger): 0
    NoShape,
    /// Simple wire trigger: 1
    WireA,
    /// Star-shaped trigger (uses `radius` for scaling): 2
    Star,
    /// Wire trigger rotated -23° around X axis: 3
    WireB,
    /// Button trigger (uses `radius` for scaling, z offset +5): 4
    Button,
    /// Wire trigger rotated 140° around X axis, z offset -19: 5
    WireC,
    /// D-shaped wire trigger: 6
    WireD,
    /// Inder-style trigger: 7
    Inder,
    /// A value not known to this library, kept as is.
    ///
    /// Must not be constructed with a value that maps to a named variant:
    /// it would write the same bytes as the named variant and read back as
    /// it. The library itself never does (`From` normalizes known values to
    /// their named variants).
    Other(u32),
}

impl Default for TriggerShape {
    fn default() -> (r: Self)
        ensures
            r == TriggerShape::WireA,
    {
        TriggerShape::WireA
    }
}

/// The trigger shape that a stored raw value stands for.
pub open spec fn trigger_shape_from_raw(value: u32) -> TriggerShape {
    match value {
        0 => TriggerShape::NoShape,
        1 => TriggerShape::WireA,
        2 => TriggerShape::Star,
        3 => TriggerShape::WireB,
        4 => TriggerShape::Button,
        5 => TriggerShape::WireC,
        6 => TriggerShape::WireD,
        7 => TriggerShape::Inder,
        other => TriggerShape::Other(other),
    }
}

/// The raw value stored for a trigger shape.
pub open spec fn trigger_shape_to_raw(value: TriggerShape) -> u32 {
    match value {
        TriggerShape::NoShape => 0,
        TriggerShape::WireA => 1,
        TriggerShape::Star => 2,
        TriggerShape::WireB => 3,
        TriggerShape::Button => 4,
        TriggerShape::WireC => 5,
        TriggerShape::WireD => 6,
        TriggerShape::Inder => 7,
        TriggerShape::Other(v) => v,
    }
}

/// A trigger shape in the one form that reading gives: `Other` only
/// holds a value that no named variant stands for.
pub open spec fn trigger_shape_is_normal(value: TriggerShape) -> bool {
    match value {
        TriggerShape::Other(v) => v > 7,
        _ => true,
    }
}

impl From<u32> for TriggerShape {
    fn from(value: u32) -> (r: Self)
        ensures
            r == trigger_shape_from_raw(value),
    {
        match value {
            0 => TriggerShape::NoShape,
            1 => TriggerShape::WireA,
            2 => TriggerShape::Star,
            3 => TriggerShape::WireB,
            4 => TriggerShape::Button,
            5 => TriggerShape::WireC,
            6 => TriggerShape::WireD,
            7 => TriggerShape::Inder,
            other => TriggerShape::Other(other),
        }
    }
}

impl vstd::std_specs::convert::FromSpecImpl<u32> for TriggerShape {
    open spec fn obeys_from_spec() -> bool {
        true
    }

    open spec fn from_spec(value: u32) -> Self {
        trigger_shape_from_raw(value)
    }
}

impl From<&TriggerShape> for u32 {
    fn from(value: &TriggerShape) -> (r: Self)
        ensures
            r == trigger_shape_to_raw(*value),
    {
        match value {
            TriggerShape::NoShape => 0,
            TriggerShape::WireA => 1,
            TriggerShape::Star => 2,
            TriggerShape::WireB => 3,
            TriggerShape::Button => 4,
            TriggerShape::WireC => 5,
            TriggerShape::WireD => 6,
            TriggerShape::Inder => 7,
            TriggerShape::Other(value) => *value,
        }
    }
}

impl vstd::std_specs::convert::FromSpecImpl<&TriggerShape> for u32 {
    open spec fn obeys_from_spec() -> bool {
        true
    }

    open spec fn from_spec(value: &TriggerShape) -> Self {
        trigger_shape_to_raw(*value)
    }
}

/// Every raw value is written back as it was read, known or not.
pub proof fn lemma_trigger_shape_raw_round_trip(value: u32)
    ensures
        trigger_shape_to_raw(trigger_shape_from_raw(value)) == value,
        trigger_shape_is_normal(trigger_shape_from_raw(value)),
{
}

/// A trigger shape in its normal form reads back as itself once written.
pub proof fn lemma_trigger_shape_value_round_trip(value: TriggerShape)
    requires
        trigger_shape_is_normal(value),
    ensures
        trigger_shape_from_raw(trigger_shape_to_raw(value)) == value,
{
}

/// The name a trigger shape is written under in JSON; `None` for
/// [`TriggerShape::Other`], which is written as its raw number.
pub open spec fn trigger_shape_json_name(value: TriggerShape) -> Option<Seq<char>> {
    match value {
        TriggerShape::NoShape => Some("none"@),
        TriggerShape::WireA => Some("wire_a"@),
        TriggerShape::Star => Some("star"@),
        TriggerShape::WireB => Some("wire_b"@),
        TriggerShape::Button => Some("button"@),
        TriggerShape::WireC => Some("wire_c"@),
        TriggerShape::WireD => Some("wire_d"@),
        TriggerShape::Inder => Some("inder"@),
        TriggerShape::Other(_) => None,
    }
}

/// What a JSON name stands for; `None` for any other name.
pub open spec fn trigger_shape_from_json_name(name: Seq<char>) -> Option<TriggerShape> {
    if name == "none"@ {
        Some(TriggerShape::NoShape)
    } else if name == "wire_a"@ {
        Some(TriggerShape::WireA)
    } else if name == "star"@ {
        Some(TriggerShape::Star)
    } else if name == "wire_b"@ {
        Some(TriggerShape::WireB)
    } else if name == "button"@ {
        Some(TriggerShape::Button)
    } else if name == "wire_c"@ {
        Some(TriggerShape::WireC)
    } else if name == "wire_d"@ {
        Some(TriggerShape::WireD)
    } else if name == "inder"@ {
        Some(TriggerShape::Inder)
    } else {
        None
    }
}

impl TriggerShape {
    /// The name this value is written under in JSON, `None` for a value
    /// written as its raw number.
    pub fn json_name(&self) -> (r: Option<&'static str>)
        ensures
            match r {
                Some(s) => trigger_shape_json_name(*self) == Some(s@),
                None => trigger_shape_json_name(*self) is None,
            },
    {
        match self {
            TriggerShape::NoShape => Some("none"),
            TriggerShape::WireA => Some("wire_a"),
            TriggerShape::Star => Some("star"),
            TriggerShape::WireB => Some("wire_b"),
            TriggerShape::Button => Some("button"),
            TriggerShape::WireC => Some("wire_c"),
            TriggerShape::WireD => Some("wire_d"),
            TriggerShape::Inder => Some("inder"),
            TriggerShape::Other(_) => None,
        }
    }

    /// What a JSON name stands for; `None` for any other name.
    pub fn from_json_name(name: &str) -> (r: Option<TriggerShape>)
        ensures
            r == trigger_shape_from_json_name(name@),
    {
        if str_equals(name, "none") {
            Some(TriggerShape::NoShape)
        } else if str_equals(name, "wire_a") {
            Some(TriggerShape::WireA)
        } else if str_equals(name, "star") {
            Some(TriggerShape::Star)
        } else if str_equals(name, "wire_b") {
            Some(TriggerShape::WireB)
        } else if str_equals(name, "button") {
            Some(TriggerShape::Button)
        } else if str_equals(name, "wire_c") {
            Some(TriggerShape::WireC)
        } else if str_equals(name, "wire_d") {
            Some(TriggerShape::WireD)
        } else if str_equals(name, "inder") {
            Some(TriggerShape::Inder)
        } else {
            None
        }
    }
}

/// Every named value reads back from its JSON name.
pub proof fn lemma_trigger_shape_json_name_round_trip(value: TriggerShape)
    ensures
        trigger_shape_json_name(value) matches Some(name) ==> trigger_shape_from_json_name(name) == Some(value),
{
    reveal_strlit("none");
    reveal_strlit("wire_a");
    reveal_strlit("star");
    reveal_strlit("wire_b");
    reveal_strlit("button");
    reveal_strlit("wire_c");
    reveal_strlit("wire_d");
    reveal_strlit("inder");
    assert("none"@.len() != "wire_a"@.len());
    assert("none"@[0] != "star"@[0]);
    assert("wire_a"@.len() != "star"@.len());
    assert("none"@.len() != "wire_b"@.len());
    assert("wire_a"@[5] != "wire_b"@[5]);
    assert("star"@.len() != "wire_b"@.len());
    assert("none"@.len() != "button"@.len());
    assert("wire_a"@[0] != "button"@[0]);
    assert("star"@.len() != "button"@.len());
    assert("wire_b"@[0] != "button"@[0]);
    assert("none"@.len() != "wire_c"@.len());
    assert("wire_a"@[5] != "wire_c"@[5]);
    assert("star"@.len() != "wire_c"@.len());
    assert("wire_b"@[5] != "wire_c"@[5]);
    assert("button"@[0] != "wire_c"@[0]);
    assert("none"@.len() != "wire_d"@.len());
    assert("wire_a"@[5] != "wire_d"@[5]);
    assert("star"@.len() != "wire_d"@.len());
    assert("wire_b"@[5] != "wire_d"@[5]);
    assert("button"@[0] != "wire_d"@[0]);
    assert("wire_c"@[5] != "wire_d"@[5]);
    assert("none"@.len() != "inder"@.len());
    assert("wire_a"@.len() != "inder"@.len());
    assert("star"@.len() != "inder"@.len());
    assert("wire_b"@.len() != "inder"@.len());
    assert("button"@.len() != "inder"@.len());
    assert("wire_c"@.len() != "inder"@.len());
    assert("wire_d"@.len() != "inder"@.len());
}

/// The raw values and JSON names that the table format gives the trigger
/// shapes: none 0, wire A 1, star 2, wire B 3, button 4, wire C 5,
/// wire D 6, Inder 7; every other raw value is kept as it is.
pub proof fn lemma_trigger_shape_stored_values()
    ensures
        trigger_shape_to_raw(TriggerShape::NoShape) == 0,
        trigger_shape_to_raw(TriggerShape::WireA) == 1,
        trigger_shape_to_raw(TriggerShape::Star) == 2,
        trigger_shape_to_raw(TriggerShape::WireB) == 3,
        trigger_shape_to_raw(TriggerShape::Button) == 4,
        trigger_shape_to_raw(TriggerShape::WireC) == 5,
        trigger_shape_to_raw(TriggerShape::WireD) == 6,
        trigger_shape_to_raw(TriggerShape::Inder) == 7,
        trigger_shape_from_raw(0) == TriggerShape::NoShape,
        trigger_shape_from_raw(1) == TriggerShape::WireA,
        trigger_shape_from_raw(2) == TriggerShape::Star,
        trigger_shape_from_raw(3) == TriggerShape::WireB,
        trigger_shape_from_raw(4) == TriggerShape::Button,
        trigger_shape_from_raw(5) == TriggerShape::WireC,
        trigger_shape_from_raw(6) == TriggerShape::WireD,
        trigger_shape_from_raw(7) == TriggerShape::Inder,
        forall|v: u32| v > 7 ==> #[trigger] trigger_shape_from_raw(v) == TriggerShape::Other(v),
        forall|v: u32| #[trigger] trigger_shape_to_raw(TriggerShape::Other(v)) == v,
        trigger_shape_json_name(TriggerShape::NoShape) == Some("none"@),
        trigger_shape_json_name(TriggerShape::WireA) == Some("wire_a"@),
        trigger_shape_json_name(TriggerShape::Star) == Some("star"@),
        trigger_shape_json_name(TriggerShape::WireB) == Some("wire_b"@),
        trigger_shape_json_name(TriggerShape::Button) == Some("button"@),
        trigger_shape_json_name(TriggerShape::WireC) == Some("wire_c"@),
        trigger_shape_json_name(TriggerShape::WireD) == Some("wire_d"@),
        trigger_shape_json_name(TriggerShape::Inder) == Some("inder"@),
        forall|v: u32| #[trigger] trigger_shape_json_name(TriggerShape::Other(v)) is None,
{
}

} // verus!
