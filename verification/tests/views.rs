use revlines::byte_start_with::ByteStartWith;
use revlines::bytes_trim::BytesTrim;

#[test]
fn bytes_trim_full_window() {
    let v = BytesTrim::new_with_bytes(b"hello".to_vec());
    assert_eq!(v.as_ref(), b"hello");
    assert_eq!(v.len(), 5);
    assert_eq!(v.get(1), b'e');
}

#[test]
fn bytes_trim_initial_slice() {
    let v = BytesTrim::new_with_slice(b"hello".to_vec(), 1, 4);
    assert_eq!(v.as_ref(), b"ell");
    assert_eq!(v.len(), 3);
}

#[test]
fn bytes_trim_self_slice_is_relative() {
    let mut v = BytesTrim::new_with_bytes(b"abcdef".to_vec());
    v.self_slice(1, 5);
    assert_eq!(v.as_ref(), b"bcde");
    // A second narrowing is relative to the current window, not the buffer.
    v.self_slice(1, 3);
    assert_eq!(v.as_ref(), b"cd");
    v.self_slice(0, 0);
    assert_eq!(v.as_ref(), b"");
}

#[test]
fn bytes_trim_clone_narrowed_leaves_original() {
    let v = BytesTrim::new_with_bytes(b"abcdef".to_vec());
    let w = v.clone_narrowed(2, 5);
    assert_eq!(w.as_ref(), b"cde");
    assert_eq!(v.as_ref(), b"abcdef");
}

#[test]
fn bytes_trim_equality_is_window_equality() {
    // Equal windows over different storage compare equal.
    let a = BytesTrim::new_with_slice(b"xxabyy".to_vec(), 2, 4);
    let b = BytesTrim::new_with_slice(b"ab".to_vec(), 0, 2);
    assert_eq!(a, b);
    let c = BytesTrim::new_with_bytes(b"ac".to_vec());
    assert_ne!(a, c);
    let d = BytesTrim::new_with_bytes(b"abc".to_vec());
    assert_ne!(a, d);
}

#[test]
fn bytes_trim_default_is_empty() {
    let v = BytesTrim::default();
    assert_eq!(v.len(), 0);
    assert_eq!(v.as_ref(), b"");
}

#[test]
fn byte_start_with_exposes_tail() {
    let v = ByteStartWith::new(b"abcdef".to_vec(), 2);
    assert_eq!(v.as_ref(), b"cdef");
    let whole = ByteStartWith::new(b"xy".to_vec(), 0);
    assert_eq!(whole.as_ref(), b"xy");
    let empty = ByteStartWith::new(b"xy".to_vec(), 2);
    assert_eq!(empty.as_ref(), b"");
}
