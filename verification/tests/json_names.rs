use vpin::vpx::gameitem::ramp_image_alignment::RampImageAlignment;
use vpin::vpx::gameitem::textbox::TextAlignment;
use vpin::vpx::gameitem::trigger::TriggerShape;
use vpin::vpx::material::MaterialType;

#[test]
fn text_alignment_names() {
    assert_eq!(TextAlignment::Center.json_name(), Some("center"));
    assert_eq!(TextAlignment::Other(4_000_000_000).json_name(), None);
    assert_eq!(TextAlignment::from_json_name("right"), Some(TextAlignment::Right));
    assert_eq!(TextAlignment::from_json_name("no_such_variant"), None);
    for v in [TextAlignment::Left, TextAlignment::Center, TextAlignment::Right] {
        assert_eq!(TextAlignment::from_json_name(v.json_name().unwrap()), Some(v));
    }
}

#[test]
fn ramp_image_alignment_names() {
    assert_eq!(RampImageAlignment::Unknown.json_name(), Some("unknown"));
    assert_eq!(RampImageAlignment::Other(7).json_name(), None);
    assert_eq!(RampImageAlignment::from_json_name("wrap"), Some(RampImageAlignment::Wrap));
    assert_eq!(RampImageAlignment::from_json_name("World"), None);
}

#[test]
fn trigger_shape_names() {
    let named = [
        TriggerShape::NoShape,
        TriggerShape::WireA,
        TriggerShape::Star,
        TriggerShape::WireB,
        TriggerShape::Button,
        TriggerShape::WireC,
        TriggerShape::WireD,
        TriggerShape::Inder,
    ];
    for v in named {
        assert_eq!(TriggerShape::from_json_name(v.json_name().unwrap()), Some(v));
    }
    assert_eq!(TriggerShape::NoShape.json_name(), Some("none"));
    assert_eq!(TriggerShape::WireD.json_name(), Some("wire_d"));
    assert_eq!(TriggerShape::from_json_name("wire_e"), None);
}

#[test]
fn material_type_names() {
    assert_eq!(MaterialType::Metal.json_name(), "metal");
    assert_eq!(MaterialType::from_json_name("basic"), Some(MaterialType::Basic));
    assert_eq!(MaterialType::from_json_name("unknown"), Some(MaterialType::Unknown));
    assert_eq!(MaterialType::from_json_name(""), None);
}

#[test]
fn material_type_names_are_read_in_any_case() {
    assert_eq!(MaterialType::from_json_name("Basic"), Some(MaterialType::Basic));
    assert_eq!(MaterialType::from_json_name("METAL"), Some(MaterialType::Metal));
    assert_eq!(MaterialType::from_json_name("UnKnOwN"), Some(MaterialType::Unknown));
    // the Kelvin sign lowercases to an ASCII k
    assert_eq!("UN\u{212A}NOWN".to_lowercase(), "unknown");
    assert_eq!(MaterialType::from_json_name("UN\u{212A}NOWN"), Some(MaterialType::Unknown));
    assert_eq!(MaterialType::from_json_name("basics"), None);
    assert_eq!(MaterialType::from_json_name("b\u{c1}sic"), None);
}
