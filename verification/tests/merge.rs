use bnode::{Data, IVec, Index, Leaf, Node, NonZeroPid};

fn iv(bytes: &[u8]) -> IVec {
    IVec::copy_of(bytes)
}

fn ivs(list: &[&[u8]]) -> Vec<IVec> {
    list.iter().map(|b| iv(b)).collect()
}

fn leaf(prefix_len: u8, next: u64, lo: &[u8], hi: &[u8], keys: &[&[u8]], values: &[&[u8]]) -> Node {
    Node {
        prefix_len,
        next: NonZeroPid::new(next),
        merging_child: None,
        merging: false,
        lo: iv(lo),
        hi: iv(hi),
        data: Data::Leaf(Leaf { keys: ivs(keys), values: ivs(values) }),
    }
}

fn index(prefix_len: u8, next: u64, lo: &[u8], hi: &[u8], children: &[(&[u8], u64)]) -> Node {
    Node {
        prefix_len,
        next: NonZeroPid::new(next),
        merging_child: None,
        merging: false,
        lo: iv(lo),
        hi: iv(hi),
        data: Data::Index(Index {
            keys: children.iter().map(|c| iv(c.0)).collect(),
            pointers: children.iter().map(|c| c.1).collect(),
        }),
    }
}

#[test]
fn merge_uneven_nodes() {
    let left = Node {
        data: Data::Leaf(Leaf {
            keys: vec![vec![230, 126, 1, 0].into()],
            values: vec![vec![].into()],
        }),
        next: NonZeroPid::new(1),
        lo: vec![230, 125, 1, 0].into(),
        hi: vec![230, 134, 0, 0].into(),
        merging_child: None,
        merging: false,
        prefix_len: 0,
    };

    let right = Node {
        data: Data::Leaf(Leaf {
            keys: vec![vec![134, 0, 0].into()],
            values: vec![vec![].into()],
        }),
        next: None,
        lo: vec![230, 134, 0, 0].into(),
        hi: vec![230, 147, 0, 0].into(),
        merging_child: None,
        merging: false,
        prefix_len: 1,
    };

    left.receive_merge(&right);
}

#[test]
fn uneven_nodes_get_one_prefix() {
    let left = leaf(0, 1, &[230, 125, 1, 0], &[230, 134, 0, 0], &[&[230, 126, 1, 0]], &[&[5]]);
    let right = leaf(1, 0, &[230, 134, 0, 0], &[230, 147, 0, 0], &[&[134, 0, 0]], &[&[6]]);
    assert_eq!(
        left.receive_merge(&right),
        leaf(
            1,
            0,
            &[230, 125, 1, 0],
            &[230, 147, 0, 0],
            &[&[126, 1, 0], &[134, 0, 0]],
            &[&[5], &[6]]
        )
    );
}

#[test]
fn a_wider_range_has_a_shorter_prefix() {
    let left = leaf(3, 1, b"kaaa", b"kaab", &[b"ab", b"ac"], &[b"1", b"2"]);
    let right = leaf(1, 7, b"kaab", b"kb", &[b"aab", b"ac"], &[b"3", b"4"]);
    assert_eq!(
        left.receive_merge(&right),
        leaf(
            1,
            7,
            b"kaaa",
            b"kb",
            &[b"aaab", b"aaac", b"aab", b"ac"],
            &[b"1", b"2", b"3", b"4"]
        )
    );
}

#[test]
fn without_an_end_there_is_no_prefix() {
    let left = leaf(1, 1, b"ka", b"kb", &[b"aa"], &[b"1"]);
    let right = leaf(0, 0, b"kb", b"", &[b"kb", b"z"], &[b"2", b"3"]);
    assert_eq!(
        left.receive_merge(&right),
        leaf(0, 0, b"ka", b"", &[b"kaa", b"kb", b"z"], &[b"1", b"2", b"3"])
    );
}

#[test]
fn indexes_merge_children() {
    let left = index(1, 3, b"k", b"kk", &[(b"", 1), (b"c", 2)]);
    let right = index(1, 4, b"kk", b"kz", &[(b"k", 5), (b"m", 6)]);
    let merged = left.receive_merge(&right);
    assert_eq!(merged, index(1, 4, b"k", b"kz", &[(b"", 1), (b"c", 2), (b"k", 5), (b"m", 6)]));
    assert_eq!(merged.index_next_node(b"kd"), left.index_next_node(b"kd"));
    assert_eq!(merged.index_next_node(b"kn").1, right.index_next_node(b"kn").1);
}

#[test]
fn merging_the_halves_gives_the_node_back() {
    let node = leaf(
        1,
        5,
        b"ka",
        b"kz",
        &[b"apple", b"banana", b"cherry", b"citrus", b"date"],
        &[b"1", b"2", b"3", b"4", b"5"],
    );
    let (left, right) = node.clone().split();
    assert_eq!(left.receive_merge(&right), node);

    let node = index(0, 8, &[10], &[], &[(&[10], 1), (&[20], 2), (&[30], 3), (&[40, 1], 4)]);
    let (left, right) = node.clone().split();
    assert_eq!(left.receive_merge(&right), node);
}

#[test]
fn the_left_node_keeps_its_merge_state() {
    let mut left = leaf(0, 1, b"", b"m", &[b"a"], &[b"1"]);
    left.merging_child = NonZeroPid::new(4);
    let mut right = leaf(0, 2, b"m", b"", &[b"n"], &[b"2"]);
    right.merging = true;
    let merged = left.receive_merge(&right);
    assert_eq!(merged.merging_child, NonZeroPid::new(4));
    assert!(!merged.merging);
    assert_eq!(merged.next, NonZeroPid::new(2));
}

#[test]
fn three_nodes_merge_in_either_order() {
    let first = leaf(1, 1, b"ka", b"kc", &[b"a", b"bx"], &[b"1", b"2"]);
    let second = leaf(0, 2, b"kc", b"m", &[b"kd"], &[b"3"]);
    let third = leaf(0, 3, b"m", b"z", &[b"mm", b"n"], &[b"4", b"5"]);
    let merged = first.receive_merge(&second).receive_merge(&third);
    assert_eq!(merged, first.receive_merge(&second.receive_merge(&third)));
    assert_eq!(
        merged,
        leaf(
            0,
            3,
            b"ka",
            b"z",
            &[b"ka", b"kbx", b"kd", b"mm", b"n"],
            &[b"1", b"2", b"3", b"4", b"5"]
        )
    );
}
