use rkd::hash::EMPTY_HASH;

#[test]
fn test_empty_hash_value_matches_string_representation() {
    let expected = rkd::hash::Hash { bytes: EMPTY_HASH };
    let from_string = rkd::hash::Hash::new("d41d8cd98f00b204e9800998ecf8427e");

    assert_eq!(
        expected, from_string,
        "EMPTY_HASH hardcoded value should match the value parsed from string"
    );

    assert_eq!(format!("{:?}", expected), format!("{:?}", from_string));
    assert_eq!(expected.fmt(), from_string.fmt());
}

#[test]
fn hash_is_shown_in_brackets() {
    let hash = rkd::hash::Hash::new("D41D8cd98F00B204E9800998ECF8427E");
    assert_eq!(hash.bytes, EMPTY_HASH);
    assert_eq!(hash.fmt(), "[d41d8cd98f00b204e9800998ecf8427e]");
    assert_eq!(hash.key(), 0xd41d8cd98f00b204e9800998ecf8427e);
}

#[test]
fn different_hashes_have_different_keys() {
    let one = rkd::hash::Hash::new("00000000000000000000000000000001");
    let two = rkd::hash::Hash::new("01000000000000000000000000000000");
    assert_ne!(one, two);
    assert_eq!(one.key(), 1);
    assert_eq!(two.key(), 1u128 << 120);
}

#[test]
fn shown_digits_are_read_back() {
    let hash = rkd::hash::Hash { bytes: [0, 1, 9, 10, 15, 16, 127, 128, 159, 160, 200, 239, 240, 250, 254, 255] };
    let shown = hash.fmt();
    assert_eq!(shown, "[0001090a0f107f809fa0c8eff0fafeff]");
    assert_eq!(rkd::hash::Hash::new(&shown[1..33]), hash);
}
