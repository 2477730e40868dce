use srtb_integrate_speeds::chart::{
    extract, integrate, remove, LargeStringValue, LargeStringValuesContainer, RawSrtbFile,
    UnityObjectValue, UnityObjectValuesContainer,
};

fn chart(entries: &[(&str, &str)]) -> RawSrtbFile {
    RawSrtbFile {
        unity_object_values_container: UnityObjectValuesContainer {
            values: vec![UnityObjectValue {
                key: "SO_TrackInfo_TrackInfo".to_string(),
                json_key: "TrackInfo".to_string(),
                full_type: "TrackInfo".to_string(),
            }],
        },
        large_string_values_container: LargeStringValuesContainer {
            values: entries
                .iter()
                .map(|(k, v)| LargeStringValue { key: k.to_string(), val: v.to_string() })
                .collect(),
        },
    }
}

fn entries(chart: &RawSrtbFile) -> Vec<(String, String)> {
    chart
        .large_string_values_container
        .values
        .iter()
        .map(|v| (v.key.clone(), v.val.clone()))
        .collect()
}

fn owned(entries: &[(&str, &str)]) -> Vec<(String, String)> {
    entries.iter().map(|(k, v)| (k.to_string(), v.to_string())).collect()
}

#[test]
fn integrate_appends_a_missing_key() {
    let mut c = chart(&[("SO_TrackData_TrackData_0", "{}"), ("other", "x")]);
    integrate(&mut c, "SpeedHelper_SpeedTriggers_EASY", "{\"Triggers\":[]}".to_string());
    assert_eq!(
        entries(&c),
        owned(&[
            ("SO_TrackData_TrackData_0", "{}"),
            ("other", "x"),
            ("SpeedHelper_SpeedTriggers_EASY", "{\"Triggers\":[]}"),
        ])
    );
    assert_eq!(c.unity_object_values_container.values.len(), 1);
    assert_eq!(c.unity_object_values_container.values[0].json_key, "TrackInfo");
}

#[test]
fn integrate_replaces_the_first_match_in_place() {
    let mut c = chart(&[("a", "1"), ("SpeedHelper_SpeedTriggers_EASY", "old"), ("b", "2"), (
        "SpeedHelper_SpeedTriggers_EASY",
        "second",
    )]);
    integrate(&mut c, "SpeedHelper_SpeedTriggers_EASY", "new".to_string());
    assert_eq!(
        entries(&c),
        owned(&[
            ("a", "1"),
            ("SpeedHelper_SpeedTriggers_EASY", "new"),
            ("b", "2"),
            ("SpeedHelper_SpeedTriggers_EASY", "second"),
        ])
    );
}

#[test]
fn integrate_into_an_empty_container() {
    let mut c = chart(&[]);
    integrate(&mut c, "k", "v".to_string());
    assert_eq!(entries(&c), owned(&[("k", "v")]));
}

#[test]
fn key_match_is_exact() {
    let mut c = chart(&[("SpeedHelper_SpeedTriggers", "legacy")]);
    integrate(&mut c, "SpeedHelper_SpeedTriggers_XD", "xd".to_string());
    assert_eq!(
        entries(&c),
        owned(&[("SpeedHelper_SpeedTriggers", "legacy"), ("SpeedHelper_SpeedTriggers_XD", "xd")])
    );
    assert_eq!(extract(&c, "speedhelper_speedtriggers"), None);
}

#[test]
fn extract_returns_the_first_match() {
    let c = chart(&[("a", "1"), ("k", "first"), ("k", "second")]);
    assert_eq!(extract(&c, "k"), Some("first".to_string()));
}

#[test]
fn extract_missing_key_is_none() {
    let c = chart(&[("a", "1")]);
    assert_eq!(extract(&c, "k"), None);
}

#[test]
fn extract_after_integrate_gives_the_payload() {
    let mut c = chart(&[("a", "1"), ("k", "old")]);
    integrate(&mut c, "k", "payload".to_string());
    assert_eq!(extract(&c, "k"), Some("payload".to_string()));
}

#[test]
fn remove_deletes_the_first_match_and_shifts() {
    let mut c = chart(&[("a", "1"), ("k", "x"), ("b", "2"), ("k", "y")]);
    assert!(remove(&mut c, "k"));
    assert_eq!(entries(&c), owned(&[("a", "1"), ("b", "2"), ("k", "y")]));
    assert_eq!(c.unity_object_values_container.values.len(), 1);
}

#[test]
fn remove_missing_key_changes_nothing() {
    let mut c = chart(&[("a", "1"), ("b", "2")]);
    assert!(!remove(&mut c, "k"));
    assert_eq!(entries(&c), owned(&[("a", "1"), ("b", "2")]));
}
