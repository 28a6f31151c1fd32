use stream_ops::ops::{FstOutput, StreamIntersection, StreamOp, StreamUnion};
use stream_ops::stream::VecStream;

fn s(string: &str) -> String {
    string.to_owned()
}

fn set_stream(keys: &[&str]) -> VecStream {
    VecStream::new(keys.iter().map(|k| (k.as_bytes().to_vec(), 0u64)).collect())
}

fn map_stream(pairs: Vec<(&str, u64)>) -> VecStream {
    VecStream::new(pairs.iter().map(|(k, v)| (k.as_bytes().to_vec(), *v)).collect())
}

fn merged(outs: &[FstOutput]) -> u64 {
    outs.iter().fold(0, |a, b| a + b.output)
}

fn union_keys(mut op: StreamUnion<VecStream>) -> Vec<String> {
    let mut keys = Vec::new();
    while let Some((key, _)) = op.next() {
        keys.push(String::from_utf8(key.to_vec()).unwrap());
    }
    keys
}

fn union_pairs(mut op: StreamUnion<VecStream>) -> Vec<(String, u64)> {
    let mut pairs = Vec::new();
    while let Some((key, outs)) = op.next() {
        pairs.push((String::from_utf8(key.to_vec()).unwrap(), merged(outs)));
    }
    pairs
}

fn intersection_keys(mut op: StreamIntersection<VecStream>) -> Vec<String> {
    let mut keys = Vec::new();
    while let Some((key, _)) = op.next() {
        keys.push(String::from_utf8(key.to_vec()).unwrap());
    }
    keys
}

fn intersection_pairs(mut op: StreamIntersection<VecStream>) -> Vec<(String, u64)> {
    let mut pairs = Vec::new();
    while let Some((key, outs)) = op.next() {
        pairs.push((String::from_utf8(key.to_vec()).unwrap(), merged(outs)));
    }
    pairs
}

#[test]
fn union_set() {
    let set1 = set_stream(&["a", "b", "c"]);
    let set2 = set_stream(&["x", "y", "z"]);

    let op = StreamOp::new().add(set1).add(set2).union();
    assert_eq!(union_keys(op), vec!["a", "b", "c", "x", "y", "z"]);
}

#[test]
fn union_set_dupes() {
    let set1 = set_stream(&["aa", "b", "cc"]);
    let set2 = set_stream(&["b", "cc", "z"]);

    let op = StreamOp::new().add(set1).add(set2).union();
    assert_eq!(union_keys(op), vec!["aa", "b", "cc", "z"]);
}

#[test]
fn union_map() {
    let map1 = map_stream(vec![("a", 1), ("b", 2), ("c", 3)]);
    let map2 = map_stream(vec![("x", 1), ("y", 2), ("z", 3)]);

    let op = StreamOp::new().add(map1).add(map2).union();
    assert_eq!(
        union_pairs(op),
        vec![(s("a"), 1), (s("b"), 2), (s("c"), 3), (s("x"), 1), (s("y"), 2), (s("z"), 3)]
    );
}

#[test]
fn union_map_dupes() {
    let map1 = map_stream(vec![("aa", 1), ("b", 2), ("cc", 3)]);
    let map2 = map_stream(vec![("b", 1), ("cc", 2), ("z", 3)]);
    let map3 = map_stream(vec![("b", 1)]);

    let op = StreamOp::new().add(map1).add(map2).add(map3).union();
    assert_eq!(union_pairs(op), vec![(s("aa"), 1), (s("b"), 4), (s("cc"), 5), (s("z"), 3)]);
}

#[test]
fn intersect_set() {
    let set1 = set_stream(&["a", "b", "c"]);
    let set2 = set_stream(&["x", "y", "z"]);

    let op = StreamOp::new().add(set1).add(set2).intersection();
    assert_eq!(intersection_keys(op), Vec::<&str>::new());
}

#[test]
fn intersect_set_dupes() {
    let set1 = set_stream(&["aa", "b", "cc"]);
    let set2 = set_stream(&["b", "cc", "z"]);

    let op = StreamOp::new().add(set1).add(set2).intersection();
    assert_eq!(intersection_keys(op), vec!["b", "cc"]);
}

#[test]
fn intersect_map() {
    let map1 = map_stream(vec![("a", 1), ("b", 2), ("c", 3)]);
    let map2 = map_stream(vec![("x", 1), ("y", 2), ("z", 3)]);

    let op = StreamOp::new().add(map1).add(map2).intersection();
    assert_eq!(intersection_pairs(op), Vec::<(String, u64)>::new());
}

#[test]
fn intersect_map_dupes() {
    let map1 = map_stream(vec![("aa", 1), ("b", 2), ("cc", 3)]);
    let map2 = map_stream(vec![("b", 1), ("cc", 2), ("z", 3)]);
    let map3 = map_stream(vec![("b", 1)]);

    let op = StreamOp::new().add(map1).add(map2).add(map3).intersection();
    assert_eq!(intersection_pairs(op), vec![(s("b"), 4)]);
}
