use fundb::ktypes::{
    build_internal_key, build_mem_key, build_tag, parse_internal_key, parse_mem_key, parse_tag,
    truncate_internal_to_user_key, u32_from_bytes, u32_to_bytes, u64_from_bytes, u64_to_bytes,
    LookupKey, ValueType,
};

#[test]
fn test_memtable_lookupkey() {
    let lk1 = LookupKey::new("abcde".as_bytes(), 123, ValueType::TypeValue);
    let lk2 = LookupKey::new("xyabxy".as_bytes(), 97, ValueType::TypeValue);

    assert_eq!(lk1.mem_key().len(), 17);
    assert_eq!(lk2.mem_key().len(), 18);

    assert_eq!(lk1.user_key(), "abcde".as_bytes());
}

#[test]
fn test_build_memtable_key() {
    let mem_key = build_mem_key("abc".as_bytes(), "123".as_bytes(), &231, &ValueType::TypeValue);

    let (user_key, seq, typ, value) = parse_mem_key(&mem_key);
    assert_eq!(user_key, "abc".as_bytes());
    assert_eq!(value, "123".as_bytes());
    assert_eq!(seq, 231);
    assert_eq!(typ, ValueType::TypeValue);

    let mem_key2 = build_mem_key(user_key, value, &seq, &typ);
    assert_eq!(mem_key, mem_key2);
}

#[test]
fn mem_key_layout() {
    let m = build_mem_key(b"ab", b"xyz", &1, &ValueType::TypeDeletion);
    assert_eq!(
        m,
        vec![2, 0, 0, 0, b'a', b'b', 0, 1, 0, 0, 0, 0, 0, 0, 3, 0, 0, 0, b'x', b'y', b'z']
    );
}

#[test]
fn mem_key_round_trip_deletion() {
    let m = build_mem_key(b"key", b"", &0x00ff_ffff_ffff_ffff, &ValueType::TypeDeletion);
    let (k, seq, typ, v) = parse_mem_key(&m);
    assert_eq!(k, b"key");
    assert_eq!(v, b"");
    assert_eq!(seq, 0x00ff_ffff_ffff_ffff);
    assert_eq!(typ, ValueType::TypeDeletion);
}

#[test]
fn tags() {
    assert_eq!(build_tag(&5, &ValueType::TypeValue), 0x501);
    assert_eq!(build_tag(&5, &ValueType::TypeDeletion), 0x500);
    assert_eq!(parse_tag(0x501), (5, ValueType::TypeValue));
    assert_eq!(parse_tag(0x700), (7, ValueType::TypeDeletion));
}

#[test]
fn byte_codecs() {
    assert_eq!(u32_to_bytes(0x0403_0201), vec![1, 2, 3, 4]);
    assert_eq!(u64_to_bytes(0x0807_0605_0403_0201), vec![1, 2, 3, 4, 5, 6, 7, 8]);
    assert_eq!(u32_from_bytes(&[1, 2, 3, 4]), 0x0403_0201);
    assert_eq!(u64_from_bytes(&[1, 2, 3, 4, 5, 6, 7, 8]), 0x0807_0605_0403_0201);
}

#[test]
fn internal_keys() {
    let lk = LookupKey::new(b"user", 9, ValueType::TypeValue);
    let ik = lk.internal_key();
    assert_eq!(ik.len(), 12);
    assert_eq!(lk.mem_key().len(), 16);
    assert_eq!(truncate_internal_to_user_key(ik), b"user");
    assert_eq!(parse_internal_key(ik), (&b"user"[..], 9, ValueType::TypeValue));
    assert_eq!(build_internal_key(b"user", 9, ValueType::TypeValue), ik);
    // The empty key is the smallest-key sentinel.
    assert_eq!(parse_internal_key(&[]), (&b""[..], 0, ValueType::TypeDeletion));
}
