use rowstats::chunks::compute_chunks;
use rowstats::table::{Measurement, Table};

#[test]
fn new_measurement_uses_sentinel_extremes() {
    let m = Measurement::new(b"Oslo".to_vec());
    assert_eq!(m.name, b"Oslo".to_vec());
    assert_eq!(m.min, i32::MAX);
    assert_eq!(m.max, i32::MIN);
    assert_eq!(m.sum, 0);
    assert_eq!(m.count, 0);
}

#[test]
fn default_measurement_has_empty_name() {
    let m = Measurement::default();
    assert_eq!(m.name, Vec::<u8>::new());
    assert_eq!(m.min, i32::MAX);
    assert_eq!(m.max, i32::MIN);
}

#[test]
fn take_measure_updates_all_statistics() {
    let mut m = Measurement::new(b"a".to_vec());
    m.take_measure(100);
    assert_eq!((m.min, m.max, m.sum, m.count), (100, 100, 100, 1));
    m.take_measure(-55);
    assert_eq!((m.min, m.max, m.sum, m.count), (-55, 100, 45, 2));
    m.take_measure(200);
    assert_eq!((m.min, m.max, m.sum, m.count), (-55, 200, 245, 3));
}

#[test]
fn add_measurement_merges_statistics() {
    let mut a = Measurement::new(b"a".to_vec());
    a.take_measure(10);
    a.take_measure(20);
    let mut b = Measurement::new(b"a".to_vec());
    b.take_measure(-5);
    a.add_measurement(b);
    assert_eq!((a.min, a.max, a.sum, a.count), (-5, 20, 25, 3));
}

#[test]
fn merge_of_rows_is_commutative() {
    let mut a = Measurement::new(b"k".to_vec());
    a.take_measure(10);
    a.take_measure(30);
    let mut b = Measurement::new(b"k".to_vec());
    b.take_measure(-5);
    let a0 = {
        let mut m = Measurement::new(b"k".to_vec());
        m.take_measure(10);
        m.take_measure(30);
        m
    };
    let b0 = {
        let mut m = Measurement::new(b"k".to_vec());
        m.take_measure(-5);
        m
    };
    let mut ab = a;
    ab.add_measurement(b0);
    let mut ba = b;
    ba.add_measurement(a0);
    assert_eq!((ab.min, ab.max, ab.sum, ab.count), (ba.min, ba.max, ba.sum, ba.count));
    assert_eq!((ab.min, ab.max, ab.sum, ab.count), (-5, 30, 35, 3));
    assert_eq!(ab.name, b"k".to_vec());
    assert_eq!(ba.name, b"k".to_vec());
}

#[test]
fn merge_of_rows_is_associative() {
    let mk = |vals: &[i32]| {
        let mut m = Measurement::new(b"k".to_vec());
        for &v in vals {
            m.take_measure(v);
        }
        m
    };
    // ((a + b) + c)
    let mut left = mk(&[10, 30]);
    left.add_measurement(mk(&[-5]));
    left.add_measurement(mk(&[7, 7]));
    // (a + (b + c))
    let mut bc = mk(&[-5]);
    bc.add_measurement(mk(&[7, 7]));
    let mut right = mk(&[10, 30]);
    right.add_measurement(bc);
    assert_eq!(
        (left.min, left.max, left.sum, left.count),
        (right.min, right.max, right.sum, right.count)
    );
    assert_eq!((left.min, left.max, left.sum, left.count), (-5, 30, 49, 5));
}

#[test]
fn table_record_groups_by_name() {
    let mut t = Table::new();
    let buf = b"OsloParis".to_vec();
    t.record(&buf, 0, 4, 10); // Oslo
    t.record(&buf, 4, 9, 20); // Paris
    t.record(&buf, 0, 4, 30); // Oslo again
    assert_eq!(t.rows.len(), 2);
    let oslo = t.rows.iter().find(|m| m.name == b"Oslo".to_vec()).unwrap();
    assert_eq!((oslo.min, oslo.max, oslo.sum, oslo.count), (10, 30, 40, 2));
    let paris = t.rows.iter().find(|m| m.name == b"Paris".to_vec()).unwrap();
    assert_eq!((paris.min, paris.max, paris.sum, paris.count), (20, 20, 20, 1));
}

#[test]
fn compatible_detects_count_overflow() {
    let mut big = Measurement::new(b"a".to_vec());
    big.take_measure(0);
    big.count = u64::MAX;
    let a = Table { rows: vec![big] };
    let mut one = Measurement::new(b"a".to_vec());
    one.take_measure(0);
    let b = Table { rows: vec![one] };
    assert!(!a.compatible(&b));

    let mut small = Measurement::new(b"a".to_vec());
    small.take_measure(0);
    let c = Table { rows: vec![small] };
    let mut other = Measurement::new(b"a".to_vec());
    other.take_measure(0);
    let d = Table { rows: vec![other] };
    assert!(c.compatible(&d));
}

#[test]
fn chunk_list_partitions_the_file() {
    let chunks = compute_chunks(10, 3);
    assert_eq!(chunks, vec![(0, 3), (3, 3), (6, 4)]);
    let chunks = compute_chunks(32, 3);
    assert_eq!(chunks, vec![(0, 10), (10, 10), (20, 12)]);
    let chunks = compute_chunks(7, 1);
    assert_eq!(chunks, vec![(0, 7)]);
    let chunks = compute_chunks(2, 4);
    assert_eq!(chunks, vec![(0, 0), (0, 0), (0, 0), (0, 2)]);
}
