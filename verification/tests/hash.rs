use rowstats::hash::{take_first_chunk, FxHasher};

#[test]
fn hash_is_deterministic_for_equal_input() {
    let key = b"Copenhagen".to_vec();
    let mut a = FxHasher::default();
    a.write(&key);
    let mut b = FxHasher::default();
    b.write(&key);
    assert_eq!(a.finish(), b.finish());
}

#[test]
fn hash_folds_every_tail_width() {
    // Lengths exercising the 8-, 4-, 2- and 1-byte folding paths.
    for len in 0..=17 {
        let key: Vec<u8> = (0..len as u8).collect();
        let mut a = FxHasher::default();
        a.write(&key);
        let mut b = FxHasher::default();
        b.write(&key);
        assert_eq!(a.finish(), b.finish());
    }
}

#[test]
fn hash_depends_on_the_bytes() {
    let mut a = FxHasher::default();
    a.write(&b"Oslo".to_vec());
    let mut b = FxHasher::default();
    b.write(&b"Olso".to_vec());
    assert_ne!(a.finish(), b.finish());
}

#[test]
fn add_to_hash_changes_and_mixes_state() {
    let mut h = FxHasher::default();
    assert_eq!(h.finish(), 0);
    h.add_to_hash(1);
    let one = h.finish();
    assert_ne!(one, 0);
    let mut g = FxHasher::default();
    g.add_to_hash(1);
    assert_eq!(g.finish(), one);
}

#[test]
fn take_first_chunk_splits_or_refuses() {
    let bytes = b"abcdefgh".to_vec();
    assert_eq!(take_first_chunk(&bytes, 0, 4), Some(b"abcd".to_vec()));
    assert_eq!(take_first_chunk(&bytes, 4, 4), Some(b"efgh".to_vec()));
    assert_eq!(take_first_chunk(&bytes, 8, 0), Some(Vec::new()));
    assert_eq!(take_first_chunk(&bytes, 6, 4), None);
    assert_eq!(take_first_chunk(&bytes, 9, 0), None);
}
