use srtb_integrate_speeds::difficulty::{map_num_to_key, Difficulty};

#[test]
fn menu_numbers_map_to_keys() {
    assert_eq!(map_num_to_key(1), Some("SpeedHelper_SpeedTriggers_EASY"));
    assert_eq!(map_num_to_key(2), Some("SpeedHelper_SpeedTriggers_NORMAL"));
    assert_eq!(map_num_to_key(3), Some("SpeedHelper_SpeedTriggers_HARD"));
    assert_eq!(map_num_to_key(4), Some("SpeedHelper_SpeedTriggers_EXPERT"));
    assert_eq!(map_num_to_key(5), Some("SpeedHelper_SpeedTriggers_XD"));
    assert_eq!(map_num_to_key(6), Some("SpeedHelper_SpeedTriggers"));
}

#[test]
fn other_menu_numbers_have_no_key() {
    assert_eq!(map_num_to_key(0), None);
    assert_eq!(map_num_to_key(7), None);
    assert_eq!(map_num_to_key(-1), None);
}

#[test]
fn difficulty_labels() {
    assert_eq!(Difficulty::Easy.label(), "Easy");
    assert_eq!(Difficulty::XD.label(), "XD");
    assert_eq!(Difficulty::RemiXD.label(), "RemiXD");
    assert_eq!(Difficulty::Legacy.label(), "All (Legacy)");
}
