use srtb_integrate_speeds::speeds::{
    json_to_speeds, speed_lines, speeds_to_json, LineNumbers, SpeedLine, SpeedTrigger,
    SpeedTriggersData, SpeedsError, TriggerNumerals,
};

fn read_number(field: Option<&String>) -> Option<u32> {
    field.and_then(|f| f.parse::<f32>().ok()).map(f32::to_bits)
}

fn read_numbers(lines: &[SpeedLine]) -> Vec<LineNumbers> {
    lines
        .iter()
        .map(|l| LineNumbers {
            time: read_number(l.fields.first()),
            speed_multiplier: read_number(l.fields.get(1)),
        })
        .collect()
}

fn decode(content: &str) -> Result<SpeedTriggersData, SpeedsError> {
    let lines = speed_lines(content);
    let numbers = read_numbers(&lines);
    speeds_to_json(&lines, &numbers)
}

fn encode(data: &SpeedTriggersData) -> String {
    let numerals: Vec<TriggerNumerals> = data
        .triggers
        .iter()
        .map(|t| TriggerNumerals {
            time: f32::from_bits(t.time).to_string(),
            speed_multiplier: f32::from_bits(t.speed_multiplier).to_string(),
        })
        .collect();
    json_to_speeds(data, &numerals)
}

fn trigger(time: f32, speed_multiplier: f32, interpolate_to_next_trigger: bool) -> SpeedTrigger {
    SpeedTrigger {
        time: time.to_bits(),
        speed_multiplier: speed_multiplier.to_bits(),
        interpolate_to_next_trigger,
    }
}

#[test]
fn test_speeds_to_json() {
    let speeds = r#"
        0 1
        1.5  2    false
        2    1.5  true
        "#;

    let expected_speeds = vec![
        trigger(0., 1., false),
        trigger(1.5, 2., false),
        trigger(2., 1.5, true),
    ];

    let speeds = decode(speeds).unwrap();
    assert_eq!(speeds.triggers, expected_speeds);
}

#[test]
fn struct_to_speeds() {
    let triggers = vec![
        trigger(0., 1., false),
        trigger(1.5, 2., false),
        trigger(2., 1.5, true),
    ];
    let speeds = SpeedTriggersData { triggers };

    let expected_speeds = "0 1 false\n1.5 2 false\n2 1.5 true\n";

    let speeds = encode(&speeds);
    assert_eq!(speeds, expected_speeds);
}

#[test]
fn decode_three_records_with_default_flag() {
    let data = decode("0 1\n1.5 2 false\n2 1.5 true\n").unwrap();
    assert_eq!(
        data.triggers,
        vec![trigger(0., 1., false), trigger(1.5, 2., false), trigger(2., 1.5, true)]
    );
}

#[test]
fn encode_three_records() {
    let data = SpeedTriggersData {
        triggers: vec![trigger(0., 1., false), trigger(1.5, 2., false), trigger(2., 1.5, true)],
    };
    assert_eq!(encode(&data), "0 1 false\n1.5 2 false\n2 1.5 true\n");
}

#[test]
fn encode_then_decode_gives_the_same_list() {
    let data = SpeedTriggersData {
        triggers: vec![
            trigger(0.125, 0.5, true),
            trigger(-3.75, 1e-7, false),
            trigger(100000000., 3.4028235e38, true),
            trigger(0.1, 2.2, false),
        ],
    };
    let back = decode(&encode(&data)).unwrap();
    assert_eq!(back.triggers, data.triggers);
}

#[test]
fn encode_empty_list() {
    let data = SpeedTriggersData { triggers: vec![] };
    assert_eq!(encode(&data), "");
    assert_eq!(decode("").unwrap().triggers, vec![]);
}

#[test]
fn blank_and_comment_lines_give_no_records() {
    let data = decode("# header\n\n   \n0 1\n  # 5 5 true\n2 3 true\n#\n").unwrap();
    assert_eq!(data.triggers, vec![trigger(0., 1., false), trigger(2., 3., true)]);
}

#[test]
fn line_numbers_count_skipped_lines() {
    let lines = speed_lines("# c\n\n0 1\n\t\n2 3 true");
    assert_eq!(lines.len(), 2);
    assert_eq!(lines[0].line_number, 2);
    assert_eq!(lines[0].fields, vec!["0".to_string(), "1".to_string()]);
    assert_eq!(lines[1].line_number, 4);
    assert_eq!(
        lines[1].fields,
        vec!["2".to_string(), "3".to_string(), "true".to_string()]
    );
    assert_eq!(
        decode("# c\n\n0 1 2 3\n").unwrap_err(),
        SpeedsError::FieldCount { line: 2, found: 4 }
    );
}

#[test]
fn one_field_is_a_field_count_error() {
    assert_eq!(decode("0 1\n5\n").unwrap_err(), SpeedsError::FieldCount { line: 1, found: 1 });
}

#[test]
fn four_fields_is_a_field_count_error() {
    assert_eq!(
        decode("0 1 true extra\n").unwrap_err(),
        SpeedsError::FieldCount { line: 0, found: 4 }
    );
}

#[test]
fn first_bad_line_stops_decoding() {
    assert_eq!(
        decode("0 1\n1 2 3 4 5\nnot a number at all\nx 1\n").unwrap_err(),
        SpeedsError::FieldCount { line: 1, found: 5 }
    );
}

#[test]
fn bad_time_is_reported() {
    assert_eq!(decode("x 1\n").unwrap_err(), SpeedsError::InvalidTime { line: 0 });
}

#[test]
fn bad_speed_multiplier_is_reported() {
    assert_eq!(
        decode("0 1\n1 fast true\n").unwrap_err(),
        SpeedsError::InvalidSpeedMultiplier { line: 1 }
    );
}

#[test]
fn time_is_checked_before_speed_multiplier() {
    assert_eq!(decode("x y\n").unwrap_err(), SpeedsError::InvalidTime { line: 0 });
}

#[test]
fn bad_flag_is_reported() {
    assert_eq!(
        decode("0 1 yes\n").unwrap_err(),
        SpeedsError::InvalidInterpolation { line: 0 }
    );
    assert_eq!(
        decode("0 1 True\n").unwrap_err(),
        SpeedsError::InvalidInterpolation { line: 0 }
    );
}

#[test]
fn crlf_tabs_and_unicode_spaces_separate_fields() {
    let data = decode("0 1\r\n2\t3\u{3000}true\r\n\u{a0}4 5 false").unwrap();
    assert_eq!(
        data.triggers,
        vec![trigger(0., 1., false), trigger(2., 3., true), trigger(4., 5., false)]
    );
}

#[test]
fn speed_lines_keep_words_verbatim() {
    let lines = speed_lines("  1.50   +2e1   false  ");
    assert_eq!(lines.len(), 1);
    assert_eq!(lines[0].line_number, 0);
    assert_eq!(
        lines[0].fields,
        vec!["1.50".to_string(), "+2e1".to_string(), "false".to_string()]
    );
}

#[test]
fn hash_inside_a_line_is_not_a_comment() {
    let lines = speed_lines("0 #1\n");
    assert_eq!(lines.len(), 1);
    assert_eq!(decode("0 #1\n").unwrap_err(), SpeedsError::InvalidSpeedMultiplier { line: 0 });
}
