use bencode::bytes::{compare_bytes, KeyOrder};

#[test]
fn compares_byte_strings_lexicographically() {
    assert_eq!(compare_bytes(b"", b""), KeyOrder::Equal);
    assert_eq!(compare_bytes(b"", b"a"), KeyOrder::Less);
    assert_eq!(compare_bytes(b"a", b""), KeyOrder::Greater);
    assert_eq!(compare_bytes(b"a", b"a"), KeyOrder::Equal);
    assert_eq!(compare_bytes(b"a", b"b"), KeyOrder::Less);
    assert_eq!(compare_bytes(b"b", b"a"), KeyOrder::Greater);
    assert_eq!(compare_bytes(b"a", b"ab"), KeyOrder::Less);
    assert_eq!(compare_bytes(b"ab", b"a"), KeyOrder::Greater);
    assert_eq!(compare_bytes(b"ab", b"b"), KeyOrder::Less);
    assert_eq!(compare_bytes(b"cow", b"spam"), KeyOrder::Less);
    assert_eq!(compare_bytes(&[0x7f], &[0x80]), KeyOrder::Less);
    assert_eq!(compare_bytes(&[0xff], &[0x00, 0x00]), KeyOrder::Greater);
}

#[test]
fn comparison_agrees_with_the_order_of_slices() {
    let samples: Vec<Vec<u8>> = vec![
        vec![],
        vec![0],
        vec![0, 0],
        vec![0, 1],
        vec![1],
        vec![1, 0],
        vec![127],
        vec![128],
        vec![255],
        vec![255, 255],
        b"spam".to_vec(),
        b"spa".to_vec(),
        b"spaz".to_vec(),
    ];
    for a in &samples {
        for b in &samples {
            let expected = if a < b {
                KeyOrder::Less
            } else if a == b {
                KeyOrder::Equal
            } else {
                KeyOrder::Greater
            };
            assert_eq!(compare_bytes(a, b), expected);
        }
    }
}
