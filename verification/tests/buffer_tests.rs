//! Buffer capacity policy and storage-form behavior.

use bignum::buffer::Buffer;
use bignum::repr::TypedReprRef;
use bignum::ubig::UBig;

#[test]
fn test_default_capacity() {
    assert_eq!(Buffer::default_capacity(2), 4);
    assert_eq!(Buffer::default_capacity(1000), 1127);
}

#[test]
fn test_max_compact_capacity() {
    assert_eq!(Buffer::max_compact_capacity(2), 6);
    assert_eq!(Buffer::max_compact_capacity(1000), 1254);
}

#[test]
fn test_allocate() {
    let buffer = Buffer::allocate(1000);
    assert_eq!(buffer.len(), 0);
    assert_eq!(buffer.capacity(), Buffer::default_capacity(1000));
}

#[test]
fn test_ensure_capacity() {
    let mut buffer = Buffer::allocate(2);
    buffer.push(7);
    assert_eq!(buffer.capacity(), 4);
    buffer.ensure_capacity(4);
    assert_eq!(buffer.capacity(), 4);
    buffer.ensure_capacity(5);
    assert_eq!(buffer.capacity(), 7);
    assert_eq!(buffer.as_slice(), &[7]);
}

#[test]
fn test_shrink() {
    let mut buffer = Buffer::allocate(100);
    buffer.push(7);
    buffer.push(8);
    buffer.push(9);
    buffer.shrink();
    assert_eq!(buffer.capacity(), Buffer::default_capacity(3));
    assert_eq!(buffer.as_slice(), &[7, 8, 9]);
}

#[test]
fn test_push_pop() {
    let mut buffer = Buffer::allocate(5);
    buffer.push(1);
    buffer.push(2);
    assert_eq!(buffer.as_slice(), &[1, 2]);
}

#[test]
fn test_pop_leading_zeros() {
    let mut buffer = Buffer::allocate(5);
    buffer.push(1);
    buffer.push(2);
    buffer.push(0);
    buffer.push(0);
    buffer.pop_zeros();
    assert_eq!(buffer.as_slice(), &[1, 2]);
}

#[test]
fn test_extend() {
    let mut buffer = Buffer::allocate(5);
    buffer.push(1);
    let list: [u64; 2] = [2, 3];
    buffer.push_slice(&list);
    assert_eq!(buffer.as_slice(), &[1, 2, 3]);
}

#[test]
fn test_push_zeros() {
    let mut buffer = Buffer::allocate(5);
    buffer.push(1);
    buffer.push_zeros(2);
    assert_eq!(buffer.as_slice(), &[1, 0, 0]);
}

#[test]
fn test_push_zeros_front() {
    let mut buffer = Buffer::allocate(5);
    buffer.push(1);
    buffer.push_zeros_front(2);
    assert_eq!(buffer.as_slice(), &[0, 0, 1]);
}

#[test]
fn test_truncate() {
    let mut buffer = Buffer::allocate(5);
    buffer.push(1);
    buffer.push(2);
    buffer.push(3);
    buffer.truncate(1);
    assert_eq!(buffer.as_slice(), &[1]);
}

#[test]
fn test_erase_front() {
    let mut buffer = Buffer::allocate(5);
    buffer.push(1);
    buffer.push(2);
    buffer.push(3);
    buffer.erase_front(2);
    assert_eq!(buffer.as_slice(), &[3]);
}

#[test]
fn test_push_resizing() {
    let mut buffer = Buffer::allocate(2);
    for _ in 0..10 {
        buffer.push_resizing(7);
    }
    assert_eq!(buffer.len(), 10);
}

#[test]
fn test_clone() {
    let mut buffer = Buffer::allocate(100);
    buffer.push(7);
    buffer.push(8);
    buffer.push(9);
    let buffer2 = buffer.clone();
    assert_eq!(buffer, buffer2);
    assert_eq!(buffer2.capacity(), Buffer::default_capacity(3));
}

#[test]
fn test_clone_from() {
    let mut buffer = Buffer::allocate(100);
    buffer.push(7);
    buffer.push(8);
    buffer.push(9);
    let mut buffer2 = Buffer::allocate(50);
    buffer2.clone_from(&buffer);
    assert_eq!(buffer, buffer2);
    assert_ne!(buffer.capacity(), buffer2.capacity());
}

#[test]
fn test_resizing_clone_from() {
    let mut buf = Buffer::allocate(5);
    assert_eq!(buf.capacity(), 7);

    let mut buf2 = Buffer::allocate(4);
    assert_eq!(buf2.capacity(), 6);
    for i in 0..4 {
        buf2.push(i);
    }
    buf.clone_from(&buf2);
    assert_eq!(buf.capacity(), 7);
    assert_eq!(buf.as_slice(), &[0, 1, 2, 3]);

    let mut buf3 = Buffer::allocate(100);
    for i in 0..100 {
        buf3.push(i);
    }
    buf.clone_from(&buf3);
    assert_eq!(buf.capacity(), Buffer::default_capacity(100));
    assert_eq!(buf.len(), 100);

    buf.clone_from(&buf2);
    assert_eq!(buf.capacity(), 6);
    assert_eq!(buf.as_slice(), &[0, 1, 2, 3]);
}

#[test]
fn test_promotion_to_large() {
    // one past the double-word maximum spills to a three-word heap form
    let x = UBig::from_dword(u128::MAX);
    let one = UBig::one();
    let sum = x.add(&one);
    assert_eq!(sum.0.len(), 3);
    assert!(matches!(sum.repr(), TypedReprRef::RefLarge(w) if w == [0, 0, 1]));
}

#[test]
fn test_demotion_to_small() {
    // subtracting back below two words restores the inline form
    let x = UBig::from_dword(u128::MAX).add(&UBig::one());
    let back = x.sub(&UBig::one());
    assert!(matches!(back.repr(), TypedReprRef::RefSmall(v) if v == u128::MAX));
}

#[test]
fn test_clone_preserves_tag() {
    let small = UBig::from_dword(12345);
    let small2 = small.clone();
    assert!(matches!(small2.repr(), TypedReprRef::RefSmall(_)));

    let large = UBig::from_dword(u128::MAX).add(&UBig::one());
    let large2 = large.clone();
    assert!(matches!(large2.repr(), TypedReprRef::RefLarge(_)));
    assert_eq!(large, large2);
}
