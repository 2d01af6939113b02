use petrea::fnv::{FnvHasher, FNV_OFFSET};

#[test]
fn fnv_fresh_hasher_is_offset_basis() {
    let h = FnvHasher::default();
    assert_eq!(h.finish(), FNV_OFFSET);
    assert_eq!(h.finish(), 0xcbf2_9ce4_8422_2325);
}

#[test]
fn fnv_single_byte_known_value() {
    let mut h = FnvHasher::default();
    let bytes: [u8; 1] = [0x61];
    h.write(&bytes);
    assert_eq!(h.finish(), 0xaf63_dc4c_8601_ec8c);
}

#[test]
fn fnv_known_word_value() {
    let mut h = FnvHasher::default();
    h.write("foobar".as_bytes());
    assert_eq!(h.finish(), 0x8594_4171_f739_67e8);
}

#[test]
fn fnv_split_writes_equal_one_write() {
    let mut whole = FnvHasher::default();
    whole.write("scope-binding".as_bytes());
    let mut parts = FnvHasher::default();
    parts.write("scope-".as_bytes());
    parts.write("binding".as_bytes());
    assert_eq!(whole.finish(), parts.finish());
}

#[test]
fn fnv_empty_write_changes_nothing() {
    let mut h = FnvHasher::default();
    h.write(&[]);
    assert_eq!(h.finish(), FNV_OFFSET);
}
