//! Game items: the parts of a table that the library models.

pub mod ramp_image_alignment;
pub mod select;
pub mod table;
pub mod textbox;
pub mod trigger;
