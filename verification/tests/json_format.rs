use perfdiff::json::{from_json, to_json, JsonError};
use perfdiff::{Measure, ResultSet};

fn m(a: u64, b: u64, c: u64) -> Measure {
    Measure { ref_cycles: a, instructions: b, cpu_time: c }
}

#[test]
fn empty_set_serializes_to_empty_object() {
    let rs = ResultSet::new();
    assert_eq!(to_json(&rs), b"{}".to_vec());
    let back = from_json(&b"{}".to_vec()).unwrap();
    assert_eq!(back.len(), 0);
}

#[test]
fn canonical_bytes_of_one_entry() {
    let mut rs = ResultSet::new();
    rs.insert(b"a.wat".to_vec(), m(1, 2, 3));
    let expected = "{\n  \"a.wat\": {\n    \"ref_cycles\": 1,\n    \"instructions\": 2,\n    \"cpu_time\": 3\n  }\n}";
    assert_eq!(String::from_utf8(to_json(&rs)).unwrap(), expected);
}

#[test]
fn round_trip_preserves_values_and_keys() {
    let mut rs = ResultSet::new();
    rs.insert(b"first.wat".to_vec(), m(0, u64::MAX, 123456789));
    rs.insert(b"second.wat".to_vec(), m(42, 0, u64::MAX - 1));
    rs.insert(b"third.wat".to_vec(), m(7, 8, 9));
    let bytes = to_json(&rs);
    let back = from_json(&bytes).unwrap();
    assert_eq!(back.len(), 3);
    assert_eq!(back.get(&b"first.wat".to_vec()), Some(m(0, u64::MAX, 123456789)));
    assert_eq!(back.get(&b"second.wat".to_vec()), Some(m(42, 0, u64::MAX - 1)));
    assert_eq!(back.get(&b"third.wat".to_vec()), Some(m(7, 8, 9)));
    assert_eq!(back.key_at(0), &b"first.wat".to_vec());
    assert_eq!(back.key_at(2), &b"third.wat".to_vec());
}

#[test]
fn round_trip_escapes_awkward_key_bytes() {
    let key: Vec<u8> = vec![34, 92, 10, 1, 65, 127, 226, 130, 172];
    let mut rs = ResultSet::new();
    rs.insert(key.clone(), m(5, 6, 7));
    let bytes = to_json(&rs);
    let back = from_json(&bytes).unwrap();
    assert_eq!(back.len(), 1);
    assert_eq!(back.get(&key), Some(m(5, 6, 7)));
}

#[test]
fn serde_json_reads_the_artifact() {
    let mut rs = ResultSet::new();
    rs.insert(b"x.wat".to_vec(), m(10, 20, 30));
    rs.insert(b"y.wat".to_vec(), m(u64::MAX, 0, 1));
    let bytes = to_json(&rs);
    let v: serde_json::Value = serde_json::from_slice(&bytes).unwrap();
    assert_eq!(v["x.wat"]["ref_cycles"], serde_json::Value::from(10u64));
    assert_eq!(v["x.wat"]["instructions"], serde_json::Value::from(20u64));
    assert_eq!(v["x.wat"]["cpu_time"], serde_json::Value::from(30u64));
    assert_eq!(v["y.wat"]["ref_cycles"], serde_json::Value::from(u64::MAX));
    assert_eq!(v.as_object().unwrap().len(), 2);
}

#[test]
fn reads_compact_form() {
    let text = b"{\"k\":{\"ref_cycles\":1,\"instructions\":2,\"cpu_time\":3}}".to_vec();
    let rs = from_json(&text).unwrap();
    assert_eq!(rs.len(), 1);
    assert_eq!(rs.get(&b"k".to_vec()), Some(m(1, 2, 3)));
}

#[test]
fn reads_short_and_unicode_escapes() {
    let text = b"{\"a\\n\\u0041\\t\": {\"ref_cycles\": 1, \"instructions\": 2, \"cpu_time\": 3}}"
        .to_vec();
    let rs = from_json(&text).unwrap();
    let key: Vec<u8> = vec![97, 10, 65, 9];
    assert_eq!(rs.get(&key), Some(m(1, 2, 3)));
}

#[test]
fn later_duplicate_key_wins() {
    let text = b"{\"k\":{\"ref_cycles\":1,\"instructions\":1,\"cpu_time\":1},\"k\":{\"ref_cycles\":2,\"instructions\":2,\"cpu_time\":2}}".to_vec();
    let rs = from_json(&text).unwrap();
    assert_eq!(rs.len(), 1);
    assert_eq!(rs.get(&b"k".to_vec()), Some(m(2, 2, 2)));
}

#[test]
fn empty_input_is_truncated() {
    assert!(matches!(from_json(&Vec::new()), Err(JsonError::Truncated)));
}

#[test]
fn wrong_top_level_is_unexpected() {
    assert!(matches!(from_json(&b"[]".to_vec()), Err(JsonError::Unexpected)));
}

#[test]
fn truncated_mid_string_fails() {
    assert!(matches!(from_json(&b"{\"k".to_vec()), Err(JsonError::Truncated)));
}

#[test]
fn trailing_bytes_fail() {
    assert!(matches!(from_json(&b"{} x".to_vec()), Err(JsonError::Unexpected)));
}

#[test]
fn oversized_numeral_fails() {
    let text = b"{\"k\":{\"ref_cycles\":18446744073709551616,\"instructions\":0,\"cpu_time\":0}}"
        .to_vec();
    assert!(matches!(from_json(&text), Err(JsonError::NumberTooLarge)));
}

#[test]
fn largest_numeral_parses() {
    let text = b"{\"k\":{\"ref_cycles\":18446744073709551615,\"instructions\":0,\"cpu_time\":0}}"
        .to_vec();
    let rs = from_json(&text).unwrap();
    assert_eq!(rs.get(&b"k".to_vec()).unwrap().ref_cycles, u64::MAX);
}

#[test]
fn unknown_escape_fails() {
    let text = b"{\"a\\q\":{\"ref_cycles\":1,\"instructions\":2,\"cpu_time\":3}}".to_vec();
    assert!(matches!(from_json(&text), Err(JsonError::Unexpected)));
}

#[test]
fn escape_beyond_byte_range_fails() {
    let text = b"{\"a\\u0141\":{\"ref_cycles\":1,\"instructions\":2,\"cpu_time\":3}}".to_vec();
    assert!(matches!(from_json(&text), Err(JsonError::Unexpected)));
}

#[test]
fn wrong_field_order_fails() {
    let text = b"{\"k\":{\"instructions\":2,\"ref_cycles\":1,\"cpu_time\":3}}".to_vec();
    assert!(matches!(from_json(&text), Err(JsonError::Unexpected)));
}

#[test]
fn canonical_bytes_of_two_entries() {
    let mut rs = ResultSet::new();
    rs.insert(b"a".to_vec(), m(1, 2, 3));
    rs.insert(b"b".to_vec(), m(4, 5, 6));
    let expected = "{\n  \"a\": {\n    \"ref_cycles\": 1,\n    \"instructions\": 2,\n    \"cpu_time\": 3\n  },\n  \"b\": {\n    \"ref_cycles\": 4,\n    \"instructions\": 5,\n    \"cpu_time\": 6\n  }\n}";
    assert_eq!(String::from_utf8(to_json(&rs)).unwrap(), expected);
}
