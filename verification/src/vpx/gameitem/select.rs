//! What most game items share: their timer data and their editor attributes.

use vstd::prelude::*;

verus! {

/// The attributes that every selectable game item carries in the editor.
pub trait HasSharedAttributes {
    fn name(&self) -> &str;

    fn is_locked(&self) -> bool;

    /// In 10.8.1 deprecated and replaced by part groups.
    fn editor_layer(&self) -> Option<u32>;

    fn editor_layer_name(&self) -> Option<&str>;

    fn editor_layer_visibility(&self) -> Option<bool>;

    fn part_group_name(&self) -> Option<&str>;

    fn set_is_locked(&mut self, locked: bool);

    /// In 10.8.1 deprecated and replaced by part groups.
    fn set_editor_layer(&mut self, layer: Option<u32>);

    fn set_editor_layer_name(&mut self, name: Option<String>);

    fn set_editor_layer_visibility(&mut self, visibility: Option<bool>);

    fn set_part_group_name(&mut self, name: Option<String>);
}

/// Timer data shared by most game items.
///
/// In VPinball this is `TimerDataRoot` (defined in `timer.h`), embedded as
/// `m_tdr` in each item's data struct. When `is_enabled` is `true`,
/// VPinball calls the `{PartName}_Timer` VBScript Sub at each `interval`
/// period.
///
/// BIFF tags: `TMON` holds `is_enabled`, `TMIN` holds `interval`.
#[derive(Debug, PartialEq, Eq, Structural, Clone, Copy, Default)]
pub struct TimerData {
    /// Whether the scripting timer is enabled (`m_tdr.m_TimerEnabled`).
    pub is_enabled: bool,
    /// Interval in milliseconds between `{PartName}_Timer` Sub calls
    /// (`m_tdr.m_TimerInterval`). Only used when `is_enabled` is `true`.
    pub interval: i32,
}

} // verus!
