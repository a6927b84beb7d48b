use bytes::Bytes;
use hummock::key::{bytes_equal, bytes_less, FullKey, UserKey};
use hummock::key_range::{encoded_less, KeyRange};
use hummock::task::RawKeyRange;

fn encoded(table_id: u32, key: &[u8], epoch: u64) -> Vec<u8> {
    FullKey::new(table_id, key.to_vec(), epoch).encode()
}

#[test]
fn test_bytes_order_is_lexicographic() {
    assert!(bytes_less(b"", b"a"));
    assert!(bytes_less(b"a", b"ab"));
    assert!(bytes_less(b"ab", b"b"));
    assert!(bytes_less(b"abc", b"abd"));
    assert!(!bytes_less(b"abc", b"abc"));
    assert!(!bytes_less(b"b", b"ab"));
    assert!(!bytes_less(b"", b""));
    assert!(bytes_less(&[0x7f], &[0x80]));
    assert!(bytes_equal(b"abc", b"abc"));
    assert!(!bytes_equal(b"abc", b"abd"));
    assert!(!bytes_equal(b"abc", b"ab"));
}

#[test]
fn test_user_key_order() {
    let a = UserKey::new(1, b"zzz".to_vec());
    let b = UserKey::new(2, b"a".to_vec());
    assert!(a.less(&b));
    assert!(!b.less(&a));
    assert!(UserKey::new(2, b"a".to_vec()).less(&UserKey::new(2, b"b".to_vec())));
    assert!(!a.less(&a));
    assert!(a.same(&UserKey::new(1, b"zzz".to_vec())));
    assert!(!a.same(&UserKey::new(1, b"zz".to_vec())));
    assert!(!a.same(&UserKey::new(3, b"zzz".to_vec())));
    assert_eq!(a.duplicate(), a);
}

#[test]
fn test_full_key_order_puts_newer_epoch_first() {
    let newer = FullKey::new(1, b"k".to_vec(), 10);
    let older = FullKey::new(1, b"k".to_vec(), 5);
    let next = FullKey::new(1, b"l".to_vec(), 100);
    assert!(newer.less(&older));
    assert!(!older.less(&newer));
    assert!(older.less(&next));
    assert!(!newer.less(&newer));
    assert!(newer.same(&FullKey::from_user_key(UserKey::new(1, b"k".to_vec()), 10)));
    assert!(!newer.same(&older));
    assert_eq!(newer.duplicate(), newer);
}

#[test]
fn test_encode_is_big_endian() {
    let key = FullKey::new(0x01020304, b"ab".to_vec(), 0x1112131415161718);
    assert_eq!(
        key.encode(),
        vec![1, 2, 3, 4, b'a', b'b', 0x11, 0x12, 0x13, 0x14, 0x15, 0x16, 0x17, 0x18]
    );
    assert_eq!(FullKey::new(0, vec![], 0).encode(), vec![0; 12]);
    assert_eq!(FullKey::new(u32::MAX, vec![], u64::MAX).encode(), vec![0xff; 12]);
}

#[test]
fn test_decode_reads_what_encode_wrote() {
    for key in [
        FullKey::new(0x01020304, b"ab".to_vec(), 0x1112131415161718),
        FullKey::new(0, vec![], 0),
        FullKey::new(u32::MAX, vec![0, 255, 7], u64::MAX),
        FullKey::new(256, b"key".to_vec(), 1 << 32),
    ] {
        assert_eq!(FullKey::decode(&key.encode()), Some(key));
    }
    assert_eq!(
        FullKey::decode(&[0, 0, 1, 0, b'x', 0, 0, 0, 0, 0, 0, 2, 1]),
        Some(FullKey::new(256, b"x".to_vec(), 513))
    );
}

#[test]
fn test_decode_refuses_short_input() {
    assert_eq!(FullKey::decode(&[]), None);
    assert_eq!(FullKey::decode(&[0; 11]), None);
    assert!(FullKey::decode(&[0; 12]).is_some());
}

#[test]
fn test_encoded_order_agrees_with_key_order() {
    let keys = [
        FullKey::new(1, b"a".to_vec(), 9),
        FullKey::new(1, b"a".to_vec(), 3),
        FullKey::new(1, b"ab".to_vec(), 300),
        FullKey::new(1, b"b".to_vec(), 1),
        FullKey::new(2, b"".to_vec(), 70000),
        FullKey::new(2, b"a".to_vec(), u64::MAX),
        FullKey::new(2, b"a".to_vec(), 0),
        FullKey::new(256, b"a".to_vec(), 5),
    ];
    for (i, a) in keys.iter().enumerate() {
        for (j, b) in keys.iter().enumerate() {
            assert_eq!(a.less(b), i < j);
            assert_eq!(encoded_less(&a.encode(), &b.encode()), i < j);
        }
    }
}

#[test]
fn test_key_range_from_raw_copies_bounds() {
    let raw = RawKeyRange::new(encoded(1, b"a", 5), encoded(1, b"c", 5), true);
    let range = KeyRange::from_raw(&raw);
    assert_eq!(&range.left[..], raw.get_left());
    assert_eq!(&range.right[..], raw.get_right());
    assert_ne!(&range.left[..], &range.right[..]);
    assert!(range.right_exclusive);
    let again = range.duplicate();
    assert_eq!(again, range);
    assert_eq!(&again.right[..], &encoded(1, b"c", 5)[..]);
    assert_eq!(raw.duplicate(), raw);
}

#[test]
fn test_key_range_bounds() {
    let all = KeyRange::new(Bytes::new(), Bytes::new());
    assert!(all.start_bound_inf());
    assert!(all.end_bound_inf());
    assert!(!all.right_exclusive);
    let some = KeyRange::new(Bytes::from(encoded(1, b"a", 5)), Bytes::from(encoded(1, b"c", 5)));
    assert!(!some.start_bound_inf());
    assert!(!some.end_bound_inf());
    assert!(some.reaches(&encoded(1, b"b", 1)));
    assert!(some.reaches(&encoded(1, b"c", 5)));
    assert!(some.reaches(&encoded(1, b"c", 6)));
    assert!(!some.reaches(&encoded(1, b"c", 4)));
    assert!(!some.reaches(&encoded(1, b"d", 9)));
    assert!(all.reaches(&encoded(9, b"zzz", 0)));
}

fn range(left: &[u8], right: &[u8], right_exclusive: bool) -> KeyRange {
    let bound = |k: &[u8]| if k.is_empty() { vec![] } else { encoded(1, k, 5) };
    KeyRange::from_raw(&RawKeyRange::new(bound(left), bound(right), right_exclusive))
}

#[test]
fn test_full_key_overlap() {
    let cases: [(&[u8], &[u8], bool, &[u8], &[u8], bool, bool); 10] = [
        (b"a", b"c", false, b"b", b"d", false, true),
        (b"a", b"c", false, b"c", b"d", false, true),
        (b"a", b"c", true, b"c", b"d", false, false),
        (b"a", b"c", false, b"d", b"e", false, false),
        (b"a", b"b", false, b"", b"", false, true),
        (b"", b"", false, b"", b"", false, true),
        (b"", b"b", true, b"b", b"", false, false),
        (b"", b"b", false, b"b", b"", false, true),
        (b"c", b"", false, b"", b"a", false, false),
        (b"b", b"e", true, b"c", b"d", true, true),
    ];
    for (al, ar, ax, bl, br, bx, expected) in cases {
        let a = range(al, ar, ax);
        let b = range(bl, br, bx);
        assert_eq!(a.full_key_overlap(&b), expected);
        assert_eq!(b.full_key_overlap(&a), expected);
    }
}
