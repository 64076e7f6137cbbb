use curly_giggle::sds::SDS;
use std::cmp::Ordering;

#[test]
fn test_sds_new() {
    let sds = SDS::new();
    assert_eq!(sds.sdslen(), 0);
    assert_eq!(sds.sdsavail(), 0);
    assert_eq!(sds.sdsbuf(), Vec::<u8>::new());
}

#[test]
fn test_sds_len() {
    let sds = SDS::sdsnew("Hello");
    assert_eq!(sds.sdslen(), 5);
    assert_eq!(sds.sdsavail(), 5);
    assert_eq!(sds.sdsbuf().len(), 10);
    assert_eq!(sds.to_string(), "Hello\0\0\0\0\0");
}

#[test]
fn test_sds_empty() {
    let sds = SDS::new();
    assert!(sds.sdsempty());

    let sds = SDS::sdsnew("Hello");
    assert!(!sds.sdsempty());
}

#[test]
fn test_sds_free() {
    let mut sds = SDS::sdsnew("Hello");
    sds.sdsfree();
    assert_eq!(sds.sdslen(), 0);
    assert_eq!(sds.sdsavail(), 0);
    assert_eq!(sds.sdsbuf(), Vec::<u8>::new());
}

#[test]
fn test_sds_dup() {
    let sds = SDS::sdsnew("Hello");
    let sds_dup = sds.sdsdup();
    assert_eq!(sds_dup.sdslen(), sds.sdslen());
    assert_eq!(sds_dup.sdsavail(), sds.sdsavail());
    assert_eq!(sds_dup.sdsbuf(), sds.sdsbuf());
}

#[test]
fn test_sds_cat() {
    let mut sds = SDS::sdsnew("Hello");
    sds.sdscat(", World!");
    assert_eq!(sds.sdslen(), 13);
    assert_eq!(sds.sdsavail(), 13);
    assert_eq!(sds.to_string(), "Hello, World!\0\0\0\0\0\0\0\0\0\0\0\0\0");
}

#[test]
fn test_sds_cmp() {
    let sds1 = SDS::sdsnew("Hello");
    let sds2 = SDS::sdsnew("World");
    assert_eq!(sds1.sdscmp(&sds2), Ordering::Less);

    let sds1 = SDS::sdsnew("Hello");
    let sds2 = SDS::sdsnew("Hello");
    assert_eq!(sds1.sdscmp(&sds2), Ordering::Equal);

    let sds1 = SDS::sdsnew("World");
    let sds2 = SDS::sdsnew("Hello");
    assert_eq!(sds1.sdscmp(&sds2), Ordering::Greater);
}

#[test]
fn sds_cat_in_place_appends() {
    let mut sds = SDS::sdsnew("Hello");
    sds.sdscat("!!");
    assert_eq!(sds.sdslen(), 7);
    assert_eq!(sds.sdsavail(), 3);
    assert_eq!(sds.to_string(), "Hello!!\0\0\0");
}

#[test]
fn sds_cat_sds_appends_content_only() {
    let mut a = SDS::sdsnew("Hello");
    let b = SDS::sdsnew(", World!");
    a.sdscatsds(&b);
    assert_eq!(a.sdslen(), 13);
    assert_eq!(&a.sdsbuf()[..13], b"Hello, World!");
}

#[test]
fn sds_clear_keeps_buffer_as_room() {
    let mut sds = SDS::sdsnew("Hello");
    sds.sdsclear();
    assert_eq!(sds.sdslen(), 0);
    assert_eq!(sds.sdsavail(), 5);
    assert_eq!(sds.sdsbuf(), b"\0ello\0\0\0\0\0".to_vec());
    assert!(sds.sdsempty());
}

#[test]
fn sds_after_clear_uses_room_only() {
    let mut sds = SDS::sdsnew("Hello");
    sds.sdsclear();
    sds.sdscat("ab");
    assert_eq!(sds.sdslen(), 2);
    assert_eq!(sds.sdsavail(), 3);
    assert_eq!(sds.sdsbuf(), b"abllo\0\0\0\0\0".to_vec());
    let mut other = SDS::sdsnew("Hello");
    other.sdsclear();
    other.sdscpy("abcdef");
    assert_eq!(other.sdslen(), 6);
    assert_eq!(other.sdsavail(), 6);
    assert_eq!(other.sdsbuf(), b"abcdef\0\0\0\0\0\0".to_vec());
}

#[test]
fn sds_cpy_cases() {
    let mut sds = SDS::sdsnew("Hello");
    sds.sdscpy("World!");
    assert_eq!(sds.sdslen(), 6);
    assert_eq!(sds.sdsavail(), 4);
    assert_eq!(sds.to_string(), "World!\0\0\0\0");
    let mut long = SDS::sdsnew("Hello, World!");
    long.sdscpy("Hi");
    assert_eq!(long.sdslen(), 2);
    assert_eq!(long.sdsavail(), 24);
    assert_eq!(&long.sdsbuf()[..14], b"Hi\0lo, World!\0");
    let mut small = SDS::sdsnew("ab");
    small.sdscpy("longer");
    assert_eq!(small.sdslen(), 6);
    assert_eq!(small.sdsavail(), 6);
    assert_eq!(&small.sdsbuf()[..6], b"longer");
}

#[test]
fn sds_grow_zero_adds_room() {
    let mut sds = SDS::sdsnew("Hello");
    sds.sdsgrowzero(5);
    assert_eq!(sds.sdslen(), 5);
    assert_eq!(sds.sdsavail(), 10);
    assert_eq!(sds.to_string(), "Hello\0\0\0\0\0\0\0\0\0\0");
}

#[test]
fn sds_range_cases() {
    let mut sds = SDS::sdsnew("Hello, World!");
    assert_eq!(sds.sdsrange(7, 11), 0);
    assert_eq!(sds.sdslen(), 5);
    assert_eq!(sds.sdsavail(), 21);
    assert_eq!(&sds.sdsbuf()[..13], b"World\0 World!");
    assert_eq!(sds.sdsbuf().len(), 26);

    let mut sds = SDS::sdsnew("Hello");
    sds.sdsrange(1, 100);
    assert_eq!(sds.sdslen(), 4);
    assert_eq!(&sds.sdsbuf()[..4], b"ello");

    let mut sds = SDS::sdsnew("Hello");
    sds.sdsrange(9, 12);
    assert_eq!(sds.sdslen(), 0);
    assert_eq!(sds.sdsavail(), 10);

    let mut empty = SDS::new();
    assert_eq!(empty.sdsrange(0, 3), 0);
    assert_eq!(empty.sdslen(), 0);
}

#[test]
fn sds_cmp_prefix_is_less() {
    let mut a = SDS::sdsnew("ab");
    a.sdsfree();
    let b = SDS::sdsnew("ab");
    assert_eq!(a.sdscmp(&b), Ordering::Less);
    assert_eq!(b.sdscmp(&a), Ordering::Greater);
}

#[test]
fn sds_trim_both_ends() {
    let mut sds = SDS::sdsnew("   Hello, World!   ");
    sds.sdstrim(" ");
    assert_eq!(sds.sdslen(), 13);
    assert_eq!(&sds.sdsbuf()[..14], b"Hello, World!\0");
    assert_eq!(sds.sdsavail(), 25);

    let mut sds = SDS::sdsnew("xxyHixy");
    sds.sdstrim("xy");
    assert_eq!(sds.sdslen(), 2);
    assert_eq!(&sds.sdsbuf()[..2], b"Hi");

    let mut all = SDS::sdsnew("aaaa");
    all.sdstrim("a");
    assert_eq!(all.sdslen(), 0);

    let mut empty = SDS::new();
    empty.sdstrim("a");
    assert_eq!(empty.sdslen(), 0);
}
