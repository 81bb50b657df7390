use bnode::{Data, IVec, Index, Leaf, Node, NonZeroPid};

fn iv(bytes: &[u8]) -> IVec {
    IVec::copy_of(bytes)
}

fn ivs(list: &[&[u8]]) -> Vec<IVec> {
    list.iter().map(|b| iv(b)).collect()
}

fn leaf(prefix_len: u8, next: u64, lo: &[u8], hi: &[u8], keys: &[&[u8]], values: &[&[u8]]) -> Node {
    Node {
        prefix_len,
        next: NonZeroPid::new(next),
        merging_child: None,
        merging: false,
        lo: iv(lo),
        hi: iv(hi),
        data: Data::Leaf(Leaf { keys: ivs(keys), values: ivs(values) }),
    }
}

fn index(prefix_len: u8, next: u64, lo: &[u8], hi: &[u8], children: &[(&[u8], u64)]) -> Node {
    Node {
        prefix_len,
        next: NonZeroPid::new(next),
        merging_child: None,
        merging: false,
        lo: iv(lo),
        hi: iv(hi),
        data: Data::Index(Index {
            keys: children.iter().map(|c| iv(c.0)).collect(),
            pointers: children.iter().map(|c| c.1).collect(),
        }),
    }
}

#[test]
fn a_leaf_is_split_at_a_truncated_key() {
    let node = leaf(
        0,
        5,
        b"",
        b"",
        &[b"apple", b"banana", b"cherry", b"citrus"],
        &[b"1", b"2", b"3", b"4"],
    );
    let (left, right) = node.split();
    assert_eq!(
        left,
        leaf(0, 0, b"", b"ci", &[b"apple", b"banana", b"cherry"], &[b"1", b"2", b"3"])
    );
    assert_eq!(right, leaf(0, 5, b"ci", b"", &[b"citrus"], &[b"4"]));
}

#[test]
fn the_halves_drop_the_bytes_that_they_share() {
    let node = leaf(0, 5, b"ka", b"kb", &[b"kaa", b"kab", b"kac"], &[b"1", b"2", b"3"]);
    let (left, right) = node.split();
    assert_eq!(left, leaf(2, 0, b"ka", b"kac", &[b"a", b"b"], &[b"1", b"2"]));
    assert_eq!(right, leaf(1, 5, b"kac", b"kb", &[b"ac"], &[b"3"]));
}

#[test]
fn the_separator_begins_with_the_prefix() {
    let node = leaf(4, 0, b"user0", b"user9", &[b"1a", b"1b", b"2c"], &[b"1", b"2", b"3"]);
    let (left, right) = node.split();
    assert_eq!(left, leaf(4, 0, b"user0", b"user2", &[b"1a", b"1b"], &[b"1", b"2"]));
    assert_eq!(right, leaf(4, 0, b"user2", b"user9", &[b"2c"], &[b"3"]));
}

#[test]
fn an_index_is_split_at_a_whole_key() {
    let node = index(0, 8, &[10], &[], &[(&[10], 1), (&[20], 2), (&[30], 3), (&[40, 1], 4)]);
    let (left, right) = node.split();
    assert_eq!(left, index(0, 0, &[10], &[40, 1], &[(&[10], 1), (&[20], 2), (&[30], 3)]));
    assert_eq!(right, index(0, 8, &[40, 1], &[], &[(&[40, 1], 4)]));
    // nothing falls into the gap below the first child
    assert_eq!(right.index_next_node(&[40, 1]), (0, 4));
    assert_eq!(left.index_next_node(&[40, 0]), (2, 3));
}

#[test]
fn a_prefix_ends_where_a_byte_stops_counting() {
    let base = vec![7u8; 300];
    let mut hi = vec![7u8; 299];
    hi.push(9);
    let key = |last: u8| {
        let mut k = base.clone();
        k.push(last);
        k
    };
    let node = leaf(
        0,
        0,
        &base,
        &hi,
        &[&key(1), &key(2), &key(3)],
        &[b"1", b"2", b"3"],
    );
    let (left, right) = node.split();
    assert_eq!(left.prefix_len, 255);
    assert_eq!(right.prefix_len, 255);
    assert_eq!(left.hi, iv(&key(3)));
    assert_eq!(right.lo, iv(&key(3)));
    assert_eq!(left.data.leaf_ref().unwrap().keys, ivs(&[&key(1)[255..], &key(2)[255..]]));
    assert_eq!(right.data.leaf_ref().unwrap().keys, ivs(&[&key(3)[255..]]));
}

#[test]
fn every_key_reads_in_one_half_as_before() {
    let mut node = Node::default();
    for i in 0..40u8 {
        node.set_leaf(iv(&[3, i, i]), iv(&[i]));
    }
    let (left, right) = node.clone().split();
    assert_eq!(left.data.len(), 21);
    assert_eq!(right.data.len(), 19);
    for i in 0..40u8 {
        let key = [3, i, i];
        let half = if key[..] < *right.lo.as_slice() { &left } else { &right };
        assert_eq!(half.node_kv_pair(&key).1, node.node_kv_pair(&key).1);
        assert_eq!(half.node_kv_pair(&key).1, Some(iv(&[i])));
        let miss = [3, i, i, 0];
        let half = if miss[..] < *right.lo.as_slice() { &left } else { &right };
        assert_eq!(half.node_kv_pair(&miss).1, None);
    }
}

#[test]
fn only_the_upper_half_starts_out_at_rest() {
    let mut node = leaf(0, 5, b"", b"", &[b"a", b"b", b"c"], &[b"1", b"2", b"3"]);
    node.merging = true;
    let (left, right) = node.split();
    assert!(left.merging);
    assert!(!right.merging);
}

#[test]
fn a_leaf_is_split_at_the_shortest_separator() {
    // every string of two bytes or fewer is below "abb" or above "abcde"
    let node = leaf(0, 0, b"", b"", &[b"aaa", b"abb", b"abcde"], &[b"1", b"2", b"3"]);
    let (left, right) = node.split();
    assert_eq!(left.hi, iv(b"abc"));
    assert_eq!(right.lo, iv(b"abc"));
    // a key that goes on where the other ends needs one byte of it
    let node = leaf(0, 0, b"", b"", &[b"a", b"ab", b"abxyz"], &[b"1", b"2", b"3"]);
    let (left, right) = node.split();
    assert_eq!(left.hi, iv(b"abx"));
    assert_eq!(right.lo, iv(b"abx"));
}
