use std::sync::Arc;
use wiwi::string_pool::pool::{SlicesWrap, SliceHashWrap};
use wiwi::string_pool::string::InvalidEncoding;
use wiwi::string_pool::{GlobalPool, OwnedPool, Pool, String};

fn sample_strings() -> Vec<Vec<&'static str>> {
    vec![
        vec!["a"],
        vec!["hello", " ", "world"],
        vec!["", "abc", "", "", "def"],
        vec!["programmering er gøy ", "烏龜很喜歡吃藍莓", " ✨ ÙwÚ ✨"],
        vec!["🫐", "bosbessen", "🫐🫐"],
        vec!["x"; 19],
    ]
}

fn check_hash_and_eq() {
    for strs in sample_strings() {
        let joined: std::string::String = strs.concat();
        let flat = Arc::new(joined.clone().into_bytes());

        let mut slices: Vec<&[u8]> = strs.iter().map(|s| s.as_bytes()).collect();
        let wrap = SlicesWrap(&slices);
        let joined_wrap_parts = [joined.as_bytes()];
        let joined_wrap = SlicesWrap(&joined_wrap_parts);

        assert_eq!(joined_wrap.content_hash(), wrap.content_hash(), "hashes should be equal");
        assert!(wrap.equivalent(&flat), "pool and slices should be equal");

        let last = slices.last_mut().unwrap();
        let last_str = std::str::from_utf8(last).unwrap();
        *last = &last[..last.len() - last_str.chars().last().unwrap().len_utf8()];

        let wrap = SlicesWrap(&slices);
        assert_ne!(joined_wrap.content_hash(), wrap.content_hash(), "hashes should not be eq");
        assert!(!wrap.equivalent(&flat), "pool and slices should not be equal");
    }
}

#[test]
fn global_slices_wrap_iter_hash_and_eq() {
    check_hash_and_eq();
}

#[test]
fn global_pool_slices_wrap_iter_hash_and_eq() {
    check_hash_and_eq();
}

#[test]
fn string_new() {
    let empty = "";
    let new = String::new();
    let new_custom_pool = String::new_in(OwnedPool);

    assert_eq!(empty, new.as_str());
    assert_eq!(empty, new_custom_pool.as_str());
}

fn assert_ok(s: &str, vec: Vec<u8>) {
    let res = String::from_utf8(vec.clone());
    assert!(res.is_ok());
    assert_eq!(&*res.unwrap(), s);

    let res = String::from_utf8_in(vec.clone(), OwnedPool);
    assert!(res.is_ok());
    assert_eq!(&*res.unwrap(), s);

    let res = String::from_utf8_slice(&vec);
    assert!(res.is_ok());
    assert_eq!(&*res.unwrap(), s);

    let res = String::from_utf8_slice_in(&vec, OwnedPool);
    assert!(res.is_ok());
    assert_eq!(&*res.unwrap(), s);
}

fn assert_err(vec: Vec<u8>) {
    assert!(String::from_utf8(vec.clone()).is_err());
    assert!(String::from_utf8_in(vec.clone(), OwnedPool).is_err());
    assert!(String::from_utf8_slice(&vec).is_err());
    assert!(String::from_utf8_slice_in(&vec, OwnedPool).is_err());
}

#[test]
fn string_from_utf8_and_slice() {
    assert_ok("🫐", vec![0xF0u8, 0x9F, 0xAB, 0x90]);

    let complex_string = "programmering er gøy 烏龜很喜歡吃藍莓 ik weet het niet, ik schrijf gewoon willekeurig zinnen lol okay this is a good \n\n test of unicode right? ✨ ÙwÚ ✨";
    assert_ok(complex_string, complex_string.as_bytes().to_vec());

    assert_err(vec![0u8, 159, 146, 150]);
}

#[test]
fn string_push() {
    let pieces = [
        "the quick brown fox ",
        "jumps over ",
        "烏龜很喜歡吃藍莓 ",
        "",
        "🫐🫐 bosbessen ",
        "✨ ÙwÚ ✨",
    ];
    let mut string_std = std::string::String::new();
    let mut string = String::new();
    let mut string_custom_pool = String::new_in(OwnedPool);

    for _ in 0..20 {
        for s in pieces {
            string_std.push_str(s);
            string.push_str(s);
            string_custom_pool.push_str(s);
            assert_eq!(&*string_std, &*string);
            assert_eq!(&*string_std, &*string_custom_pool);
        }
    }
}

#[test]
fn interning_twice_shares_one_allocation() {
    let pool = GlobalPool::new();
    let a = pool.raw_from_slices(SlicesWrap(&[b"he".as_slice(), b"llo".as_slice()]));
    let b = pool.raw_from_slices(SlicesWrap(&[b"hel".as_slice(), b"".as_slice(), b"lo".as_slice()]));
    assert!(Arc::ptr_eq(&a, &b));
    assert_eq!(pool.raw_to_slice(&a), b"hello");

    let c = pool.raw_from_slice(b"world");
    assert!(!Arc::ptr_eq(&a, &c));

    let s1 = String::from_str_in("shared", pool.clone());
    let s2 = String::from_str_in("shared", pool.clone());
    assert_eq!(s1.as_bytes().as_ptr(), s2.as_bytes().as_ptr());
    let s3 = s1.clone();
    assert_eq!(s1.as_bytes().as_ptr(), s3.as_bytes().as_ptr());
}

#[test]
fn split_segments_hash_alike() {
    let ab_c = [b"ab".as_slice(), b"c".as_slice()];
    let a_bc = [b"a".as_slice(), b"bc".as_slice()];
    let x = SlicesWrap(&ab_c);
    let y = SlicesWrap(&a_bc);
    assert_eq!(x.content_hash(), y.content_hash());
    assert!(x.equivalent(b"abc"));
    assert!(y.equivalent(b"abc"));
    assert!(!x.equivalent(b"abd"));
    assert!(!x.equivalent(b"ab"));
    assert!(!x.equivalent(b"abcd"));
    let empty: [&[u8]; 0] = [];
    assert_eq!(SlicesWrap(&empty).content_hash(), 0xcbf29ce484222325);
    assert_eq!(SlicesWrap(&[b"a".as_slice()]).content_hash(), 0xaf63dc4c8601ec8c);
}

#[test]
fn round_trip_through_pools() {
    let bytes = "grüße 🫐".as_bytes();
    let parts = [&bytes[..3], &bytes[3..]];
    let global = GlobalPool::new();
    let raw = global.raw_from_slices(SlicesWrap(&parts));
    assert_eq!(global.raw_into_vec(raw), bytes.to_vec());
    let raw = OwnedPool.raw_from_slices(SlicesWrap(&parts));
    assert_eq!(OwnedPool.raw_into_vec(raw), bytes.to_vec());
    assert_eq!(SlicesWrap(&parts).to_vec(), bytes.to_vec());
    assert_eq!(&*SlicesWrap(&parts).to_boxed_slice(), bytes);
    let raw = global.raw_from_slice(bytes);
    assert_eq!(&*global.raw_into_boxed_slice(raw), bytes);
    assert_eq!(global.raw_to_slice(&global.raw_empty()), b"");
}

#[test]
fn slice_hash_wrap_bytes() {
    let pool = GlobalPool::new();
    let raw: Arc<SliceHashWrap> = pool.raw_from_slice(b"abc");
    assert_eq!(raw.as_bytes(), b"abc");
}

#[test]
fn push_char_encodes_utf8() {
    let mut s = String::new();
    s.push('🫐');
    assert_eq!(s.as_bytes(), &[0xF0, 0x9F, 0xAB, 0x90]);
    s.push('a');
    s.push('ø');
    s.push('烏');
    assert_eq!(s.as_str(), "🫐aø烏");
    assert_eq!(s.len(), 10);
}

#[test]
fn insert_remove_truncate() {
    let mut s = String::from_str_in("bc", GlobalPool::new());
    s.insert_str(0, "x");
    assert_eq!(s.as_str(), "xbc");

    let mut s = String::from_str_in("bc", GlobalPool::new());
    assert_eq!(s.remove(0), 'b');
    assert_eq!(s.as_str(), "c");

    let mut s = String::from_str_in("a🫐b", GlobalPool::new());
    assert_eq!(s.remove(1), '🫐');
    assert_eq!(s.as_str(), "ab");
    s.insert(1, 'ø');
    assert_eq!(s.as_str(), "aøb");

    let mut s = String::from_str_in("anything at all", GlobalPool::new());
    s.truncate(0);
    assert_eq!(s.as_str(), "");

    let mut s = String::from_str_in("héllo", GlobalPool::new());
    s.truncate(100);
    assert_eq!(s.as_str(), "héllo");
    s.truncate(3);
    assert_eq!(s.as_str(), "hé");
}

#[test]
fn pop_last_char() {
    let mut s = String::from_str_in("aø🫐", OwnedPool);
    assert_eq!(s.pop(), Some('🫐'));
    assert_eq!(s.pop(), Some('ø'));
    assert_eq!(s.pop(), Some('a'));
    assert_eq!(s.pop(), None);
    assert!(s.is_empty());
}

#[test]
fn retain_drops_spaces() {
    let mut s = String::from_str_in("a b c", GlobalPool::new());
    s.retain(|c| c != ' ');
    assert_eq!(s.as_str(), "abc");

    let mut s = String::from_str_in("  ø🫐 x y  ", OwnedPool);
    s.retain(|c| c != ' ');
    assert_eq!(s.as_str(), "ø🫐xy");

    let mut s = String::from_str_in("abc", GlobalPool::new());
    s.retain(|_| false);
    assert_eq!(s.as_str(), "");
}

#[test]
fn split_off_halves() {
    let mut s = String::from_str_in("abc", GlobalPool::new());
    let tail = s.split_off(1);
    assert_eq!(s.as_str(), "a");
    assert_eq!(tail.as_str(), "bc");

    let mut s = String::from_str_in("ø🫐z", GlobalPool::new());
    let tail = s.split_off_in(2, OwnedPool);
    assert_eq!(s.as_str(), "ø");
    assert_eq!(tail.as_str(), "🫐z");
}

#[test]
fn clear_and_convert() {
    let mut s = String::from_str_in("text", GlobalPool::new());
    let copy = s.to_other_pool(OwnedPool);
    let copy2 = s.clone_to(OwnedPool);
    s.clear();
    assert_eq!(s.as_str(), "");
    assert_eq!(copy.as_str(), "text");
    assert_eq!(copy2.into_bytes(), b"text".to_vec());
    let moved = copy.into_other_pool(GlobalPool::new());
    assert_eq!(moved.as_str(), "text");
    assert_eq!(&*moved.into_boxed_str(), "text");
    let d: String = Default::default();
    assert_eq!(d.as_str(), "");
}

#[test]
fn lossy_and_utf16() {
    assert_eq!(String::from_utf8_lossy(b"ok").as_str(), "ok");
    assert_eq!(String::from_utf8_lossy(&[b'a', 0xff, b'b']).as_str(), "a\u{FFFD}b");

    let units: Vec<u16> = "a🫐".encode_utf16().collect();
    assert_eq!(String::from_utf16(&units).unwrap().as_str(), "a🫐");
    assert_eq!(String::from_utf16(&[0xD800, 0x61]).err(), Some(InvalidEncoding));
    assert_eq!(String::from_utf16_lossy(&[0x61, 0xDC00]).as_str(), "a\u{FFFD}");
    assert_eq!(String::from_utf16_in(&units, OwnedPool).unwrap().as_str(), "a🫐");
    assert_eq!(String::from_utf16_lossy_in(&[0xD800], OwnedPool).as_str(), "\u{FFFD}");
    assert_eq!(String::from_utf8_lossy_in(&[0xC0], OwnedPool).as_str(), "\u{FFFD}");
    assert_eq!(String::from_utf8(vec![0xC3, 0x28]).err(), Some(InvalidEncoding));

    let s = String::from_utf8_unchecked(vec![b'h', b'i']);
    assert_eq!(s.as_str(), "hi");
    let s = String::from_utf8_unchecked_slice("ø".as_bytes());
    assert_eq!(s.as_str(), "ø");
}

#[test]
fn equality_and_order_follow_bytes() {
    let a = String::from_str_in("apple", GlobalPool::new());
    let b = String::from_str_in("apple", GlobalPool::new());
    let c = String::from_str_in("apples", GlobalPool::new());
    let d = String::from_str_in("banana", GlobalPool::new());
    assert!(a == b);
    assert!(a != c);
    assert!(a < c);
    assert!(c < d);
    assert_eq!(a.partial_cmp(&b), Some(std::cmp::Ordering::Equal));
    assert_eq!(d.partial_cmp(&a), Some(std::cmp::Ordering::Greater));
}

#[test]
fn append_operators_and_views() {
    let mut s = String::from_str_in("ab", GlobalPool::new());
    s += "cd";
    let other = String::from_str_in("ef", OwnedPool);
    s += &other;
    assert_eq!(&*s, "abcdef");
    let bytes: &[u8] = s.as_ref();
    assert_eq!(bytes, b"abcdef");
    let text: &str = s.as_ref();
    assert_eq!(text, "abcdef");
    let borrowed: &str = std::borrow::Borrow::borrow(&s);
    assert_eq!(borrowed.len(), 6);
}

#[test]
fn add_and_from() {
    let a = String::from("ab");
    let b = &a + "cd";
    assert_eq!(&*b, "abcd");
    assert_eq!(&*a, "ab");
    let c = a + "ø";
    assert_eq!(&*c, "abø");
    let d: String<OwnedPool> = String::from(("xy", OwnedPool));
    assert_eq!(d.as_bytes(), b"xy");
    let e: String<OwnedPool> = Default::default();
    assert!(e.is_empty());
}

#[test]
fn same_pool_shares_allocations() {
    let pool = GlobalPool::default();
    let a = String::from_utf8_in(b"dedup".to_vec(), pool.clone()).unwrap();
    let b = String::from_utf8_slice_in(b"dedup", pool.clone()).unwrap();
    assert_eq!(a.as_bytes().as_ptr(), b.as_bytes().as_ptr());
    let c = &a + "";
    assert_eq!(a.as_bytes().as_ptr(), c.as_bytes().as_ptr());
    let other = String::from_utf8_in(b"dedup".to_vec(), GlobalPool::new()).unwrap();
    assert_ne!(a.as_bytes().as_ptr(), other.as_bytes().as_ptr());
    assert!(a == other);
}
