use stream_ops::stream::{Output, Stream, VecStream};

#[test]
fn output_carries_its_number() {
    assert_eq!(Output::zero().value(), 0);
    assert_eq!(Output::new(17).value(), 17);
    assert_eq!(Output::new(u64::MAX).value(), u64::MAX);
}

#[test]
fn vec_stream_produces_its_pairs_in_order_and_then_nothing() {
    let mut s = VecStream::new(vec![(b"a".to_vec(), 1), (b"b".to_vec(), 2)]);
    let (key, out) = s.next().unwrap();
    assert_eq!((key, out.value()), (&b"a"[..], 1));
    let (key, out) = s.next().unwrap();
    assert_eq!((key, out.value()), (&b"b"[..], 2));
    assert!(s.next().is_none());
    assert!(s.next().is_none());
}

#[test]
fn empty_vec_stream_is_exhausted() {
    let mut s = VecStream::new(vec![]);
    assert!(s.next().is_none());
}

#[test]
fn is_ascending_tells_sorted_from_unsorted() {
    assert!(VecStream::new(vec![]).is_ascending());
    assert!(VecStream::new(vec![(b"a".to_vec(), 1)]).is_ascending());
    assert!(VecStream::new(vec![(b"a".to_vec(), 1), (b"aa".to_vec(), 0), (b"b".to_vec(), 5)])
        .is_ascending());
    assert!(!VecStream::new(vec![(b"b".to_vec(), 1), (b"a".to_vec(), 2)]).is_ascending());
    assert!(!VecStream::new(vec![(b"a".to_vec(), 1), (b"a".to_vec(), 2)]).is_ascending());
    assert!(!VecStream::new(vec![(b"a".to_vec(), 1), (b"c".to_vec(), 2), (b"b".to_vec(), 3)])
        .is_ascending());
}

#[test]
fn is_ascending_looks_only_at_what_is_left() {
    let mut s = VecStream::new(vec![(b"z".to_vec(), 1), (b"a".to_vec(), 2), (b"b".to_vec(), 3)]);
    assert!(!s.is_ascending());
    assert!(s.next().is_some());
    assert!(s.is_ascending());
}

#[test]
fn a_boxed_stream_produces_what_the_stream_inside_produces() {
    let mut s: Box<dyn Stream> = Box::new(VecStream::new(vec![(b"k".to_vec(), 4)]));
    let (key, out) = s.next().unwrap();
    assert_eq!((key, out.value()), (&b"k"[..], 4));
    assert!(s.next().is_none());
}
