use stream_ops::keys::{key_equal, key_less};

#[test]
fn key_less_orders_byte_strings_lexicographically() {
    assert!(key_less(b"a", b"b"));
    assert!(!key_less(b"b", b"a"));
    assert!(key_less(b"a", b"aa"));
    assert!(!key_less(b"aa", b"a"));
    assert!(key_less(b"aa", b"ab"));
    assert!(key_less(b"ab", b"b"));
    assert!(key_less(b"", b"a"));
    assert!(!key_less(b"a", b""));
    assert!(key_less(&[0x7f], &[0x80]));
    assert!(key_less(&[1, 2, 3], &[1, 2, 4]));
    assert!(!key_less(&[1, 2, 4], &[1, 2, 3, 9]));
}

#[test]
fn no_key_comes_before_itself() {
    assert!(!key_less(b"", b""));
    assert!(!key_less(b"abc", b"abc"));
}

#[test]
fn key_equal_compares_all_bytes() {
    assert!(key_equal(b"", b""));
    assert!(key_equal(b"abc", b"abc"));
    assert!(!key_equal(b"abc", b"abd"));
    assert!(!key_equal(b"abc", b"ab"));
    assert!(!key_equal(b"ab", b"abc"));
    assert!(!key_equal(b"", b"a"));
}
