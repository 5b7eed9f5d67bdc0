use vpin::vpx::gameitem::ramp_image_alignment::RampImageAlignment;
use vpin::vpx::gameitem::textbox::TextAlignment;
use vpin::vpx::gameitem::trigger::TriggerShape;
use vpin::vpx::material::MaterialType;

#[test]
fn legacy_unknown_value_normalizes() {
    assert_eq!(RampImageAlignment::from(2), RampImageAlignment::Unknown);
}

#[test]
fn ramp_image_alignment_values_convert_both_ways() {
    assert_eq!(RampImageAlignment::from(0), RampImageAlignment::World);
    assert_eq!(RampImageAlignment::from(1), RampImageAlignment::Wrap);
    let value = RampImageAlignment::from(4_000_000_000);
    assert_eq!(value, RampImageAlignment::Other(4_000_000_000));
    assert_eq!(u32::from(&value), 4_000_000_000);
    assert_eq!(u32::from(&RampImageAlignment::Unknown), 2);
}

#[test]
fn text_alignment_values_convert_both_ways() {
    assert_eq!(TextAlignment::from(1), TextAlignment::Center);
    let value = TextAlignment::from(4_000_000_000);
    assert_eq!(value, TextAlignment::Other(4_000_000_000));
    assert_eq!(u32::from(&value), 4_000_000_000);
    assert_eq!(u32::from(&TextAlignment::Right), 2);
    assert_eq!(TextAlignment::default(), TextAlignment::Left);
}

#[test]
fn trigger_shape_values_convert_both_ways() {
    assert_eq!(TriggerShape::from(0), TriggerShape::NoShape);
    assert_eq!(TriggerShape::from(7), TriggerShape::Inder);
    let value = TriggerShape::from(4_000_000_000);
    assert_eq!(value, TriggerShape::Other(4_000_000_000));
    assert_eq!(u32::from(&value), 4_000_000_000);
    assert_eq!(u32::from(&TriggerShape::WireD), 6);
    assert_eq!(TriggerShape::default(), TriggerShape::WireA);
}

#[test]
fn every_raw_value_round_trips() {
    for v in [0u32, 1, 2, 3, 7, 8, 100, u32::MAX] {
        assert_eq!(u32::from(&RampImageAlignment::from(v)), v);
        assert_eq!(u32::from(&TextAlignment::from(v)), v);
        assert_eq!(u32::from(&TriggerShape::from(v)), v);
    }
}

#[test]
fn material_type_values_convert_both_ways() {
    assert_eq!(MaterialType::from_raw(-1), MaterialType::Unknown);
    assert_eq!(MaterialType::from_raw(0), MaterialType::Basic);
    assert_eq!(MaterialType::from_raw(1), MaterialType::Metal);
    for t in [MaterialType::Unknown, MaterialType::Basic, MaterialType::Metal] {
        assert_eq!(MaterialType::from_raw(i32::from(&t)), t);
    }
}
