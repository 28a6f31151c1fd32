use std::cell::Cell;
use std::collections::BTreeSet;
use std::rc::Rc;

use stream_ops::ops::{FstOutput, StreamOp};
use stream_ops::stream::{Output, Stream, VecStream};

fn stream(pairs: &[(&str, u64)]) -> VecStream {
    VecStream::new(pairs.iter().map(|(k, v)| (k.as_bytes().to_vec(), *v)).collect())
}

fn union_all(streams: Vec<VecStream>) -> Vec<(Vec<u8>, Vec<FstOutput>)> {
    let mut op = StreamOp::new();
    for s in streams {
        op = op.add(s);
    }
    let mut cursor = op.union();
    let mut got = Vec::new();
    while let Some((key, outs)) = cursor.next() {
        got.push((key.to_vec(), outs.to_vec()));
    }
    got
}

fn intersect_all(streams: Vec<VecStream>) -> Vec<(Vec<u8>, Vec<FstOutput>)> {
    let mut op = StreamOp::new();
    for s in streams {
        op = op.add(s);
    }
    let mut cursor = op.intersection();
    let mut got = Vec::new();
    while let Some((key, outs)) = cursor.next() {
        got.push((key.to_vec(), outs.to_vec()));
    }
    got
}

fn keys(got: &[(Vec<u8>, Vec<FstOutput>)]) -> Vec<String> {
    got.iter().map(|(k, _)| String::from_utf8(k.clone()).unwrap()).collect()
}

fn contributions(outs: &[FstOutput]) -> Vec<(usize, u64)> {
    outs.iter().map(|o| (o.index, o.output)).collect()
}

fn three_streams() -> Vec<Vec<(&'static str, u64)>> {
    vec![
        vec![("apple", 1), ("cherry", 2), ("fig", 3), ("kiwi", 4)],
        vec![("banana", 10), ("cherry", 20), ("kiwi", 30), ("lime", 40)],
        vec![("cherry", 100), ("date", 200), ("kiwi", 300)],
    ]
}

#[test]
fn union_emits_the_sorted_union_of_all_keys() {
    let data = three_streams();
    let got = union_all(data.iter().map(|d| stream(d)).collect());
    let mut expected = BTreeSet::new();
    for d in &data {
        for (k, _) in d {
            expected.insert(k.to_string());
        }
    }
    assert_eq!(keys(&got), expected.into_iter().collect::<Vec<_>>());
    assert_eq!(keys(&got), vec!["apple", "banana", "cherry", "date", "fig", "kiwi", "lime"]);
}

#[test]
fn union_contributions_name_exactly_the_streams_that_hold_the_key() {
    let data = three_streams();
    let got = union_all(data.iter().map(|d| stream(d)).collect());
    for (key, outs) in &got {
        let key = String::from_utf8(key.clone()).unwrap();
        let mut named: Vec<usize> = outs.iter().map(|o| o.index).collect();
        named.sort();
        let holders: Vec<usize> =
            (0..data.len()).filter(|i| data[*i].iter().any(|(k, _)| *k == key)).collect();
        assert_eq!(named, holders);
        for o in outs {
            let value = data[o.index].iter().find(|(k, _)| *k == key).unwrap().1;
            assert_eq!(o.output, value);
        }
    }
    assert_eq!(contributions(&got[0].1), vec![(0, 1)]);
    assert_eq!(contributions(&got[2].1), vec![(0, 2), (1, 20), (2, 100)]);
    assert_eq!(contributions(&got[5].1), vec![(0, 4), (1, 30), (2, 300)]);
    assert_eq!(contributions(&got[6].1), vec![(1, 40)]);
}

#[test]
fn intersection_emits_the_keys_that_every_stream_holds() {
    let data = three_streams();
    let got = intersect_all(data.iter().map(|d| stream(d)).collect());
    assert_eq!(keys(&got), vec!["cherry", "kiwi"]);
}

#[test]
fn intersection_contributions_have_one_entry_per_stream() {
    let data = three_streams();
    let got = intersect_all(data.iter().map(|d| stream(d)).collect());
    assert_eq!(got.len(), 2);
    for (_, outs) in &got {
        assert_eq!(outs.len(), 3);
        let mut named: Vec<usize> = outs.iter().map(|o| o.index).collect();
        named.sort();
        assert_eq!(named, vec![0, 1, 2]);
    }
    assert_eq!(contributions(&got[0].1), vec![(0, 2), (1, 20), (2, 100)]);
    assert_eq!(contributions(&got[1].1), vec![(0, 4), (1, 30), (2, 300)]);
}

#[test]
fn keys_come_out_strictly_ascending() {
    let data = three_streams();
    let union = union_all(data.iter().map(|d| stream(d)).collect());
    for pair in union.windows(2) {
        assert!(pair[0].0 < pair[1].0);
    }
    let inter = intersect_all(data.iter().map(|d| stream(d)).collect());
    for pair in inter.windows(2) {
        assert!(pair[0].0 < pair[1].0);
    }
}

#[test]
fn one_stream_alone_is_reproduced() {
    let data = [("a", 7), ("ab", 8), ("b", 9)];
    let union = union_all(vec![stream(&data)]);
    assert_eq!(keys(&union), vec!["a", "ab", "b"]);
    assert_eq!(contributions(&union[0].1), vec![(0, 7)]);
    assert_eq!(contributions(&union[1].1), vec![(0, 8)]);
    assert_eq!(contributions(&union[2].1), vec![(0, 9)]);
    let inter = intersect_all(vec![stream(&data)]);
    assert_eq!(keys(&inter), vec!["a", "ab", "b"]);
    assert_eq!(contributions(&inter[1].1), vec![(0, 8)]);
}

#[test]
fn copies_of_one_stream_give_its_keys_with_a_contribution_per_copy() {
    let data = [("a", 7), ("ab", 8), ("b", 9)];
    let union = union_all(vec![stream(&data), stream(&data), stream(&data), stream(&data)]);
    assert_eq!(keys(&union), vec!["a", "ab", "b"]);
    for (_, outs) in &union {
        assert_eq!(outs.len(), 4);
        let mut named: Vec<usize> = outs.iter().map(|o| o.index).collect();
        named.sort();
        assert_eq!(named, vec![0, 1, 2, 3]);
    }
    let inter = intersect_all(vec![stream(&data), stream(&data), stream(&data)]);
    assert_eq!(keys(&inter), vec!["a", "ab", "b"]);
    for (_, outs) in &inter {
        assert_eq!(outs.len(), 3);
    }
}

#[test]
fn union_of_no_streams_is_exhausted_at_once() {
    let mut cursor = StreamOp::<VecStream>::new().union();
    assert!(cursor.next().is_none());
    assert!(cursor.next().is_none());
}

#[test]
fn intersection_of_no_streams_is_exhausted_at_once() {
    let mut cursor = StreamOp::<VecStream>::new().intersection();
    assert!(cursor.next().is_none());
    assert!(cursor.next().is_none());
}

#[test]
fn union_of_empty_streams_is_empty() {
    assert!(union_all(vec![stream(&[]), stream(&[])]).is_empty());
    let got = union_all(vec![stream(&[]), stream(&[("k", 3)]), stream(&[])]);
    assert_eq!(keys(&got), vec!["k"]);
    assert_eq!(contributions(&got[0].1), vec![(1, 3)]);
}

#[test]
fn intersection_with_an_empty_stream_is_empty() {
    assert!(intersect_all(vec![stream(&[("a", 1), ("b", 2)]), stream(&[])]).is_empty());
    assert!(intersect_all(vec![stream(&[]), stream(&[("a", 1), ("b", 2)])]).is_empty());
}

#[test]
fn intersection_ends_when_a_stream_runs_out() {
    let got = intersect_all(vec![
        stream(&[("a", 1), ("b", 2)]),
        stream(&[("b", 3), ("c", 4), ("d", 5), ("e", 6)]),
    ]);
    assert_eq!(keys(&got), vec!["b"]);
    assert_eq!(contributions(&got[0].1), vec![(0, 2), (1, 3)]);
}

#[test]
fn an_exhausted_cursor_stays_exhausted() {
    let mut union = StreamOp::new().add(stream(&[("a", 1)])).union();
    assert!(union.next().is_some());
    assert!(union.next().is_none());
    assert!(union.next().is_none());
    let mut inter =
        StreamOp::new().add(stream(&[("a", 1)])).add(stream(&[("b", 1)])).intersection();
    assert!(inter.next().is_none());
    assert!(inter.next().is_none());
}

#[test]
fn contributions_to_one_key_come_in_ascending_order_of_value() {
    let got = union_all(vec![
        stream(&[("k", 5)]),
        stream(&[("k", 1)]),
        stream(&[("k", 3)]),
        stream(&[("j", 9), ("k", 2)]),
    ]);
    assert_eq!(keys(&got), vec!["j", "k"]);
    assert_eq!(contributions(&got[0].1), vec![(3, 9)]);
    assert_eq!(contributions(&got[1].1), vec![(1, 1), (3, 2), (2, 3), (0, 5)]);
    let got = intersect_all(vec![stream(&[("k", 5)]), stream(&[("k", 1)]), stream(&[("k", 3)])]);
    assert_eq!(contributions(&got[0].1), vec![(1, 1), (2, 3), (0, 5)]);
}

#[test]
fn a_key_that_is_a_prefix_comes_first() {
    let got = union_all(vec![
        stream(&[("aa", 0), ("b", 0)]),
        stream(&[("", 0), ("a", 0), ("ab", 0)]),
    ]);
    assert_eq!(keys(&got), vec!["", "a", "aa", "ab", "b"]);
}

#[test]
fn keys_are_compared_as_unsigned_bytes() {
    let low = VecStream::new(vec![(vec![0x7f], 1)]);
    let high = VecStream::new(vec![(vec![0x80], 2), (vec![0xff], 3)]);
    let mut cursor = StreamOp::new().add(high).add(low).union();
    let mut got = Vec::new();
    while let Some((key, outs)) = cursor.next() {
        got.push((key.to_vec(), outs[0].index, outs[0].output));
    }
    assert_eq!(got, vec![(vec![0x7f], 1, 1), (vec![0x80], 0, 2), (vec![0xff], 0, 3)]);
}

#[test]
fn long_keys_and_short_keys_share_a_buffer() {
    let long_a: String = std::iter::repeat('a').take(200).collect();
    let long_b: String = std::iter::repeat('b').take(300).collect();
    let one = VecStream::new(vec![
        (long_a.as_bytes().to_vec(), 1),
        (long_b.as_bytes().to_vec(), 2),
        (b"c".to_vec(), 3),
    ]);
    let two = VecStream::new(vec![(long_b.as_bytes().to_vec(), 20), (b"d".to_vec(), 40)]);
    let mut cursor = StreamOp::new().add(one).add(two).union();
    let mut got = Vec::new();
    while let Some((key, outs)) = cursor.next() {
        got.push((String::from_utf8(key.to_vec()).unwrap(), contributions(outs)));
    }
    assert_eq!(
        got,
        vec![
            (long_a, vec![(0, 1)]),
            (long_b, vec![(0, 2), (1, 20)]),
            ("c".to_owned(), vec![(0, 3)]),
            ("d".to_owned(), vec![(1, 40)]),
        ]
    );
}

#[test]
fn many_streams_merge_like_a_sorted_set() {
    let n: usize = 37;
    let mut data: Vec<Vec<(Vec<u8>, u64)>> = Vec::new();
    for i in 0..n {
        let mut items = Vec::new();
        let mut k: u64 = ((n - i) * 7 % 11) as u64;
        while k < 400 {
            items.push((format!("{:05}", k).into_bytes(), (i as u64) * 1000 + k));
            k += 1 + ((i as u64) * 5 + k) % 9;
        }
        data.push(items);
    }
    let mut expected = BTreeSet::new();
    for items in &data {
        for (k, _) in items {
            expected.insert(k.clone());
        }
    }
    let common: Vec<Vec<u8>> = expected
        .iter()
        .filter(|k| data.iter().all(|items| items.iter().any(|(k2, _)| k2 == *k)))
        .cloned()
        .collect();

    let got = union_all(data.iter().map(|items| VecStream::new(items.clone())).collect());
    let got_keys: Vec<Vec<u8>> = got.iter().map(|(k, _)| k.clone()).collect();
    assert_eq!(got_keys, expected.iter().cloned().collect::<Vec<_>>());
    for (key, outs) in &got {
        let mut named: Vec<usize> = outs.iter().map(|o| o.index).collect();
        named.sort();
        let holders: Vec<usize> =
            (0..n).filter(|i| data[*i].iter().any(|(k, _)| k == key)).collect();
        assert_eq!(named, holders);
        for o in outs {
            assert_eq!(o.output % 1000, String::from_utf8(key.clone()).unwrap().parse().unwrap());
            assert_eq!(o.output / 1000, o.index as u64);
        }
    }

    let got = intersect_all(data.iter().map(|items| VecStream::new(items.clone())).collect());
    let got_keys: Vec<Vec<u8>> = got.iter().map(|(k, _)| k.clone()).collect();
    assert_eq!(got_keys, common);
    for (_, outs) in &got {
        assert_eq!(outs.len(), n);
    }
}

struct Counted {
    inner: VecStream,
    reads: Rc<Cell<usize>>,
}

impl Stream for Counted {
    fn inv(&self) -> bool {
        unreachable!()
    }

    fn pending(&self) -> vstd::seq::Seq<(vstd::seq::Seq<u8>, u64)> {
        unreachable!()
    }

    fn next(&mut self) -> Option<(&[u8], Output)> {
        self.reads.set(self.reads.get() + 1);
        self.inner.next()
    }
}

fn counted(pairs: &[(&str, u64)]) -> (Counted, Rc<Cell<usize>>) {
    let reads = Rc::new(Cell::new(0));
    (Counted { inner: stream(pairs), reads: reads.clone() }, reads)
}

#[test]
fn the_stream_of_the_first_contribution_is_read_on_only_at_the_next_call() {
    let (a, reads_a) = counted(&[("a", 1), ("c", 1)]);
    let (b, reads_b) = counted(&[("b", 2), ("c", 2)]);
    let mut cursor = StreamOp::new().add(a).add(b).union();
    assert_eq!((reads_a.get(), reads_b.get()), (1, 1));

    let (key, outs) = cursor.next().unwrap();
    assert_eq!((key, contributions(outs)), (&b"a"[..], vec![(0, 1)]));
    assert_eq!((reads_a.get(), reads_b.get()), (1, 1));

    let (key, outs) = cursor.next().unwrap();
    assert_eq!((key, contributions(outs)), (&b"b"[..], vec![(1, 2)]));
    assert_eq!((reads_a.get(), reads_b.get()), (2, 1));

    let (key, outs) = cursor.next().unwrap();
    assert_eq!((key, contributions(outs)), (&b"c"[..], vec![(0, 1), (1, 2)]));
    assert_eq!((reads_a.get(), reads_b.get()), (2, 3));

    assert!(cursor.next().is_none());
    assert_eq!((reads_a.get(), reads_b.get()), (3, 3));
}

#[test]
fn an_intersection_reads_on_the_streams_it_rejects() {
    let (a, reads_a) = counted(&[("a", 1), ("c", 1)]);
    let (b, reads_b) = counted(&[("b", 2), ("c", 2)]);
    let mut cursor = StreamOp::new().add(a).add(b).intersection();
    assert_eq!((reads_a.get(), reads_b.get()), (1, 1));

    let (key, outs) = cursor.next().unwrap();
    assert_eq!((key, contributions(outs)), (&b"c"[..], vec![(0, 1), (1, 2)]));
    assert_eq!((reads_a.get(), reads_b.get()), (2, 3));

    assert!(cursor.next().is_none());
    assert_eq!((reads_a.get(), reads_b.get()), (3, 3));
}

#[test]
fn boxed_streams_of_different_types_merge() {
    let (a, _) = counted(&[("a", 1), ("c", 3)]);
    let b = stream(&[("b", 2), ("c", 30)]);
    let boxed_a: Box<dyn Stream> = Box::new(a);
    let boxed_b: Box<dyn Stream> = Box::new(b);
    let mut cursor = StreamOp::new().add(boxed_a).add(boxed_b).union();
    let mut got = Vec::new();
    while let Some((key, outs)) = cursor.next() {
        got.push((String::from_utf8(key.to_vec()).unwrap(), contributions(outs)));
    }
    assert_eq!(
        got,
        vec![
            ("a".to_owned(), vec![(0, 1)]),
            ("b".to_owned(), vec![(1, 2)]),
            ("c".to_owned(), vec![(0, 3), (1, 30)]),
        ]
    );
}
