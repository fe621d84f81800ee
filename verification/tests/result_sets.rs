use perfdiff::{Measure, ResultSet};

fn m(a: u64, b: u64, c: u64) -> Measure {
    Measure { ref_cycles: a, instructions: b, cpu_time: c }
}

#[test]
fn empty_set() {
    let rs = ResultSet::new();
    assert_eq!(rs.len(), 0);
    assert_eq!(rs.get(&b"x".to_vec()), None);
}

#[test]
fn insert_and_get() {
    let mut rs = ResultSet::new();
    rs.insert(b"a.wat".to_vec(), m(1, 2, 3));
    rs.insert(b"b.wat".to_vec(), m(4, 5, 6));
    assert_eq!(rs.len(), 2);
    assert_eq!(rs.get(&b"a.wat".to_vec()), Some(m(1, 2, 3)));
    assert_eq!(rs.get(&b"b.wat".to_vec()), Some(m(4, 5, 6)));
    assert_eq!(rs.get(&b"c.wat".to_vec()), None);
}

#[test]
fn insert_replaces_in_place() {
    let mut rs = ResultSet::new();
    rs.insert(b"a".to_vec(), m(1, 1, 1));
    rs.insert(b"b".to_vec(), m(2, 2, 2));
    rs.insert(b"a".to_vec(), m(9, 9, 9));
    assert_eq!(rs.len(), 2);
    assert_eq!(rs.key_at(0), &b"a".to_vec());
    assert_eq!(rs.measure_at(0), m(9, 9, 9));
    assert_eq!(rs.key_at(1), &b"b".to_vec());
}

#[test]
fn keeps_insertion_order() {
    let mut rs = ResultSet::new();
    rs.insert(b"z".to_vec(), m(1, 1, 1));
    rs.insert(b"a".to_vec(), m(2, 2, 2));
    rs.insert(b"m".to_vec(), m(3, 3, 3));
    assert_eq!(rs.key_at(0), &b"z".to_vec());
    assert_eq!(rs.key_at(1), &b"a".to_vec());
    assert_eq!(rs.key_at(2), &b"m".to_vec());
}
