use hokusai::input::BrushInput;
use hokusai::setting::{BrushSetting, NUM_SETTINGS};

#[test]
fn roundtrip_all_cnames() {
    for s in &BrushSetting::ALL {
        assert_eq!(BrushSetting::from_cname(s.cname()), Some(*s));
    }
}

#[test]
fn num_settings_matches_all() {
    assert_eq!(NUM_SETTINGS, BrushSetting::ALL.len());
}

#[test]
fn inputs_round_trip_by_name() {
    for i in &BrushInput::ALL {
        assert_eq!(BrushInput::from_cname(i.cname()), Some(*i));
    }
    assert_eq!(BrushInput::from_cname("presure"), None);
    assert_eq!(BrushSetting::from_cname(""), None);
}
