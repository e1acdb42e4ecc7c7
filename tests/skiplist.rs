use fundb::cmp::DefaultCmp;
use fundb::iterator::LdbIterator;
use fundb::skiplist::{next_height, SkipList, MAX_HEIGHT};

fn make_skiplist() -> SkipList<DefaultCmp> {
    let mut skip_list = SkipList::new(DefaultCmp);
    let keys = vec![
        "aba", "abb", "abc", "abd", "abe", "abf", "abg", "abh", "abi", "abj", "abk", "abl", "abm",
        "abn", "abo", "abp", "abq", "abr", "abs", "abt", "abu", "abv", "abw", "abx", "aby", "abz",
    ];
    for k in keys {
        skip_list.insert(k.as_bytes(), "def".as_bytes())
    }
    skip_list
}

#[test]
fn test_contains() {
    let sl = make_skiplist();
    assert!(sl.contains("aba".as_bytes()));
    assert!(sl.contains("abb".as_bytes()));
    assert!(sl.contains("abc".as_bytes()));
    assert!(sl.contains("abd".as_bytes()));
    assert!(sl.contains("abe".as_bytes()));
    assert!(!sl.contains("def".as_bytes()));
}

#[test]
fn contains_every_inserted_key() {
    let sl = make_skiplist();
    for c in b'a'..=b'z' {
        assert!(sl.contains(&[b'a', b'b', c]));
    }
    assert!(!sl.contains(b"ab"));
    assert!(!sl.contains(b"abzz"));
    assert_eq!(sl.len(), 26);
    assert!(!sl.is_empty());
}

#[test]
fn memory_grows_with_each_insert() {
    let mut sl = SkipList::new(DefaultCmp);
    assert!(sl.is_empty());
    let mut last = sl.approx_memory();
    for i in 0..100u32 {
        let key = format!("key{:05}", (i * 37) % 100);
        sl.insert(key.as_bytes(), b"v");
        let now = sl.approx_memory();
        assert!(now > last);
        last = now;
    }
    assert_eq!(sl.len(), 100);
}

#[test]
fn forward_scan_is_sorted_and_prev_steps_back() {
    let mut sl = SkipList::new(DefaultCmp);
    for i in 0..50u32 {
        let key = format!("k{:03}", (i * 17) % 50);
        sl.insert(key.as_bytes(), key.as_bytes());
    }
    let mut it = sl.iter();
    let mut seen: Vec<Vec<u8>> = Vec::new();
    while let Some((k, v)) = it.next() {
        assert_eq!(k, v);
        seen.push(k);
    }
    assert_eq!(seen.len(), 50);
    for w in seen.windows(2) {
        assert!(w[0] < w[1]);
    }
    assert!(!it.valid());

    // From each key, one step back reaches the one before it.
    for i in 1..seen.len() {
        it.seek(&seen[i]);
        assert!(it.prev());
        let (mut k, mut v) = (vec![], vec![]);
        assert!(it.current(&mut k, &mut v));
        assert_eq!(k, seen[i - 1]);
    }
    it.seek(&seen[0]);
    assert!(!it.prev());
    assert!(!it.valid());
}

#[test]
fn cursor_scenario() {
    let mut sl = SkipList::new(DefaultCmp);
    sl.insert(b"aba", b"def");
    sl.insert(b"abd", b"def");
    sl.insert(b"abc", b"def");

    let mut it = sl.iter();
    assert!(!it.valid());
    it.seek_to_first();
    let (mut k, mut v) = (vec![], vec![]);
    assert!(it.current(&mut k, &mut v));
    assert_eq!(k, b"aba");
    assert_eq!(v, b"def");
    assert!(it.advance());
    assert!(it.current(&mut k, &mut v));
    assert_eq!(k, b"abc");
    assert!(it.advance());
    assert!(it.current(&mut k, &mut v));
    assert_eq!(k, b"abd");
    assert!(!it.advance());
    assert!(!it.valid());

    it.seek(b"abc");
    assert!(it.current(&mut k, &mut v));
    assert_eq!(k, b"abc");
    assert!(it.prev());
    assert!(it.current(&mut k, &mut v));
    assert_eq!(k, b"aba");

    it.seek(b"abcc");
    assert!(it.current(&mut k, &mut v));
    assert_eq!(k, b"abd");
    it.seek(b"b");
    assert!(!it.valid());
    it.reset();
    assert!(!it.valid());
    assert_eq!(it.next(), Some((b"aba".to_vec(), b"def".to_vec())));
}

#[test]
fn empty_list_cursor() {
    let sl = SkipList::new(DefaultCmp);
    let mut it = sl.iter();
    assert!(!it.advance());
    assert_eq!(it.next(), None);
    it.seek(b"a");
    assert!(!it.valid());
    assert!(!it.prev());
    assert!(!sl.contains(b"a"));
}

#[test]
fn level_step_rule() {
    assert_eq!(next_height(1, 0), 2);
    assert_eq!(next_height(1, 8), 2);
    assert_eq!(next_height(3, 5), 3);
    assert_eq!(next_height(MAX_HEIGHT, 0), MAX_HEIGHT);
}

#[test]
fn seeded_lists_hold_the_same_entries() {
    let mut a = SkipList::with_seed(DefaultCmp, 7);
    let mut b = SkipList::new(DefaultCmp);
    for i in 0..40u32 {
        let key = format!("{:04}", (i * 13) % 40);
        a.insert(key.as_bytes(), b"x");
        b.insert(key.as_bytes(), b"x");
    }
    let (mut ia, mut ib) = (a.iter(), b.iter());
    for _ in 0..40 {
        assert_eq!(ia.next(), ib.next());
    }
    assert_eq!(ia.next(), None);
    assert!(a.contains(b"0039"));
}
