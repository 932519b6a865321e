use mini_lsm::key::{compare_keys, KeyOrder, KeySlice, KeyVec};

#[test]
fn keys_order_lexicographically() {
    assert_eq!(compare_keys(b"abc", b"abd"), KeyOrder::Less);
    assert_eq!(compare_keys(b"abd", b"abc"), KeyOrder::Greater);
    assert_eq!(compare_keys(b"ab", b"abc"), KeyOrder::Less);
    assert_eq!(compare_keys(b"abc", b"ab"), KeyOrder::Greater);
    assert_eq!(compare_keys(b"abc", b"abc"), KeyOrder::Equal);
    assert_eq!(compare_keys(b"", b""), KeyOrder::Equal);
    assert_eq!(compare_keys(b"", b"a"), KeyOrder::Less);
    assert_eq!(compare_keys(b"b", b"abc"), KeyOrder::Greater);
    assert_eq!(compare_keys(&[0xff], &[0x00, 0xff]), KeyOrder::Greater);
}

#[test]
fn key_vec_appends_and_converts() {
    let mut k = KeyVec::new();
    assert!(k.is_empty());
    k.append(b"ab");
    k.append(b"c");
    assert_eq!(k.raw_ref(), b"abc");
    assert_eq!(k.as_key_slice().raw_ref(), b"abc");
    let shared = k.into_key_bytes();
    assert_eq!(shared.raw_ref(), b"abc");
    let s = KeySlice::from_slice(b"xy");
    assert_eq!(s.to_key_vec().into_inner(), b"xy".to_vec());
}
