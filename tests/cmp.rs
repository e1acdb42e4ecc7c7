use fundb::cmp::{Cmp, DefaultCmp, InternalKeyCmp, MemKeyCmp};
use fundb::ktypes::{build_mem_key, LookupKey, ValueType, MAX_SEQUENCE_NUMBER};
use std::cmp::Ordering;

#[test]
fn test_cmp_defaultcmp_shortest_sep() {
    assert_eq!(
        DefaultCmp.find_shortest_sep("abcd".as_bytes(), "abcf".as_bytes()),
        "abce".as_bytes()
    );
    assert_eq!(
        DefaultCmp.find_shortest_sep("abc".as_bytes(), "acd".as_bytes()),
        "abd".as_bytes()
    );
    assert_eq!(
        DefaultCmp.find_shortest_sep("abcdefghi".as_bytes(), "abcffghi".as_bytes()),
        "abce".as_bytes()
    );
    assert_eq!(
        DefaultCmp.find_shortest_sep("a".as_bytes(), "a".as_bytes()),
        "a".as_bytes()
    );
    assert_eq!(
        DefaultCmp.find_shortest_sep("a".as_bytes(), "b".as_bytes()),
        "a\0".as_bytes()
    );
    assert_eq!(
        DefaultCmp.find_shortest_sep("abc".as_bytes(), "zzz".as_bytes()),
        "b".as_bytes()
    );
    assert_eq!(
        DefaultCmp.find_shortest_sep("yyy".as_bytes(), "z".as_bytes()),
        "yyz".as_bytes()
    );
    assert_eq!(
        DefaultCmp.find_shortest_sep("".as_bytes(), "".as_bytes()),
        "".as_bytes()
    );
}

#[test]
fn test_cmp_defaultcmp_short_succ() {
    assert_eq!(DefaultCmp.find_short_succ("abcd".as_bytes()), "b".as_bytes());
    assert_eq!(DefaultCmp.find_short_succ("zzzz".as_bytes()), "{".as_bytes());
    assert_eq!(DefaultCmp.find_short_succ(&[]), &[0xff]);
    assert_eq!(
        DefaultCmp.find_short_succ(&[0xff, 0xff, 0xff]),
        &[0xff, 0xff, 0xff, 0xff]
    );
}

#[test]
fn test_cmp_internalkeycmp_shortest_sep() {
    let cmp = InternalKeyCmp(DefaultCmp);
    assert_eq!(
        cmp.find_shortest_sep(
            LookupKey::new("abcd".as_bytes(), 1, ValueType::TypeValue).internal_key(),
            LookupKey::new("abcf".as_bytes(), 2, ValueType::TypeValue).internal_key()
        ),
        LookupKey::new("abce".as_bytes(), 1, ValueType::TypeValue).internal_key()
    );
    assert_eq!(
        cmp.find_shortest_sep(
            LookupKey::new("abcd".as_bytes(), 1, ValueType::TypeValue).internal_key(),
            LookupKey::new("abce".as_bytes(), 2, ValueType::TypeValue).internal_key()
        ),
        LookupKey::new("abcd\0".as_bytes(), 1, ValueType::TypeValue).internal_key()
    );
    assert_eq!(
        cmp.find_shortest_sep(
            LookupKey::new("abc".as_bytes(), 1, ValueType::TypeValue).internal_key(),
            LookupKey::new("zzz".as_bytes(), 2, ValueType::TypeValue).internal_key()
        ),
        LookupKey::new("b".as_bytes(), MAX_SEQUENCE_NUMBER, ValueType::TypeValue).internal_key()
    );
    assert_eq!(
        cmp.find_shortest_sep(
            LookupKey::new("abc".as_bytes(), 1, ValueType::TypeValue).internal_key(),
            LookupKey::new("acd".as_bytes(), 2, ValueType::TypeValue).internal_key()
        ),
        LookupKey::new("abd".as_bytes(), 1, ValueType::TypeValue).internal_key()
    );
    assert_eq!(
        cmp.find_shortest_sep(
            LookupKey::new("abc".as_bytes(), 1, ValueType::TypeValue).internal_key(),
            LookupKey::new("abe".as_bytes(), 2, ValueType::TypeValue).internal_key()
        ),
        LookupKey::new("abd".as_bytes(), 1, ValueType::TypeValue).internal_key()
    );
    assert_eq!(
        cmp.find_shortest_sep(
            LookupKey::new("".as_bytes(), 1, ValueType::TypeValue).internal_key(),
            LookupKey::new("".as_bytes(), 2, ValueType::TypeValue).internal_key()
        ),
        LookupKey::new("".as_bytes(), 1, ValueType::TypeValue).internal_key()
    );
    assert_eq!(
        cmp.find_shortest_sep(
            LookupKey::new("abc".as_bytes(), 2, ValueType::TypeValue).internal_key(),
            LookupKey::new("abc".as_bytes(), 2, ValueType::TypeValue).internal_key()
        ),
        LookupKey::new("abc".as_bytes(), 2, ValueType::TypeValue).internal_key()
    );
}

#[test]
fn test_cmp_internalkeycmp() {
    let cmp = InternalKeyCmp(DefaultCmp);
    // a < b < c
    let a = LookupKey::new("abc".as_bytes(), 2, ValueType::TypeValue).internal_key().to_vec();
    let b = LookupKey::new("abc".as_bytes(), 1, ValueType::TypeValue).internal_key().to_vec();
    let c = LookupKey::new("abd".as_bytes(), 3, ValueType::TypeValue).internal_key().to_vec();

    assert_eq!(Ordering::Less, cmp.cmp(&a, &b));
    assert_eq!(Ordering::Equal, cmp.cmp(&a, &a));
    assert_eq!(Ordering::Greater, cmp.cmp(&b, &a));
    assert_eq!(Ordering::Less, cmp.cmp(&a, &c));
}

#[test]
fn bytewise_order_on_three_keys() {
    let (a, b, c) = ("abc".as_bytes(), "abd".as_bytes(), "b".as_bytes());
    assert_eq!(DefaultCmp.cmp(a, b), Ordering::Less);
    assert_eq!(DefaultCmp.cmp(b, c), Ordering::Less);
    assert_eq!(DefaultCmp.cmp(a, c), Ordering::Less);
    assert_eq!(DefaultCmp.cmp(b, a), Ordering::Greater);
    assert_eq!(DefaultCmp.cmp(a, a), Ordering::Equal);
    assert_eq!(DefaultCmp.cmp("ab".as_bytes(), "abc".as_bytes()), Ordering::Less);
    assert_eq!(DefaultCmp.cmp("".as_bytes(), "".as_bytes()), Ordering::Equal);
}

#[test]
fn separator_backup_and_prefix_cases() {
    // `from` a prefix of `to`: the backup appends a zero byte.
    assert_eq!(DefaultCmp.find_shortest_sep(b"ab", b"abc"), b"ab\0");
    // Trailing 0xff bytes are kept when the byte before them is raised.
    assert_eq!(DefaultCmp.find_shortest_sep(b"a\xff", b"c"), b"b");
    assert_eq!(DefaultCmp.find_shortest_sep(b"", b"a"), b"\0");
    assert_eq!(DefaultCmp.find_shortest_sep(b"\xff", b"\xff\x01"), b"\xff\0");
}

#[test]
fn successor_keeps_leading_ff_bytes() {
    assert_eq!(DefaultCmp.find_short_succ(&[0xff, 0x10, 0x20]), &[0xff, 0x11]);
    assert_eq!(DefaultCmp.find_short_succ(&[0x00]), &[0x01]);
}

#[test]
fn internal_key_newer_sorts_first() {
    let cmp = InternalKeyCmp(DefaultCmp);
    let newer = LookupKey::new(b"k", 2, ValueType::TypeValue);
    let older = LookupKey::new(b"k", 1, ValueType::TypeValue);
    assert_eq!(cmp.cmp(newer.internal_key(), older.internal_key()), Ordering::Less);
    assert_eq!(cmp.cmp(older.internal_key(), newer.internal_key()), Ordering::Greater);
    // The empty internal key sorts before every other one.
    assert_eq!(cmp.cmp(&[], older.internal_key()), Ordering::Less);
}

#[test]
fn internal_key_successor_keeps_tag() {
    let cmp = InternalKeyCmp(DefaultCmp);
    let k = LookupKey::new(b"abcd", 7, ValueType::TypeDeletion);
    assert_eq!(
        cmp.find_short_succ(k.internal_key()),
        LookupKey::new(b"b", 7, ValueType::TypeDeletion).internal_key()
    );
}

#[test]
fn mem_key_cmp_orders_by_user_key_then_newest() {
    let cmp = MemKeyCmp(DefaultCmp);
    let a = build_mem_key(b"abc", b"x", &5, &ValueType::TypeValue);
    let b = build_mem_key(b"abc", b"y", &3, &ValueType::TypeValue);
    let c = build_mem_key(b"abd", b"z", &9, &ValueType::TypeDeletion);
    assert_eq!(cmp.cmp(&a, &b), Ordering::Less);
    assert_eq!(cmp.cmp(&b, &c), Ordering::Less);
    assert_eq!(cmp.cmp(&c, &a), Ordering::Greater);
    assert_eq!(cmp.cmp(&a, &a), Ordering::Equal);
}

#[test]
fn comparator_ids() {
    assert_eq!(DefaultCmp.id(), "fundb.BytewiseCmp");
    assert_eq!(InternalKeyCmp(DefaultCmp).id(), "fundb.BytewiseCmp");
    assert_eq!(MemKeyCmp(DefaultCmp).id(), "fundb.BytewiseCmp");
}

#[test]
#[should_panic]
fn test_cmp_memtablekeycmp_panics() {
    let cmp = MemKeyCmp(DefaultCmp);
    cmp.cmp(&[1, 2, 3], &[4, 5, 6]);
}
