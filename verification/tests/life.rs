use bnode::{Data, IVec, Index, Leaf, Link, Node, NonZeroPid};

fn iv(bytes: &[u8]) -> IVec {
    IVec::copy_of(bytes)
}

fn leaf_of(n: u16) -> Node {
    let keys: Vec<IVec> = (0..n).map(|i| iv(&i.to_be_bytes())).collect();
    let values = keys.clone();
    Node { data: Data::Leaf(Leaf { keys, values }), ..Node::default() }
}

fn index_of(n: u16) -> Node {
    let keys: Vec<IVec> = (0..n).map(|i| iv(&i.to_be_bytes())).collect();
    let pointers = (0..n).map(|i| u64::from(i) + 1).collect();
    Node { data: Data::Index(Index { keys, pointers }), ..Node::default() }
}

#[test]
fn changes_to_a_leaf_are_applied() {
    let mut node = Node::default();
    node.apply(&Link::Put(iv(b"b"), iv(b"1")));
    node.apply(&Link::Put(iv(b"a"), iv(b"2")));
    node.apply(&Link::Put(iv(b"b"), iv(b"3")));
    assert_eq!(node.node_kv_pair(b"a").1, Some(iv(b"2")));
    assert_eq!(node.node_kv_pair(b"b").1, Some(iv(b"3")));
    node.apply(&Link::Del(iv(b"a")));
    assert_eq!(node.node_kv_pair(b"a").1, None);
    assert_eq!(node.data.len(), 1);
}

#[test]
fn a_child_merge_is_announced_and_confirmed() {
    let mut node = index_of(3);
    assert!(node.can_merge_child());
    node.apply(&Link::ParentMergeIntention(2));
    assert_eq!(node.merging_child, NonZeroPid::new(2));
    assert!(!node.can_merge_child());
    assert_eq!(node.data, index_of(3).data);
    node.apply(&Link::ParentMergeConfirm);
    assert_eq!(node.merging_child, None);
    assert!(node.can_merge_child());
    assert_eq!(node.data.index_ref().unwrap().pointers, vec![1, 3]);
    assert_eq!(
        node.data.index_ref().unwrap().keys,
        vec![iv(&0u16.to_be_bytes()), iv(&2u16.to_be_bytes())]
    );
}

#[test]
fn a_capped_node_rests_no_more() {
    let mut node = leaf_of(17);
    assert!(node.should_split());
    node.apply(&Link::ChildMergeCap);
    assert!(node.merging);
    assert!(!node.should_split());
    assert!(!node.should_split_eagerly());
    assert!(!node.can_merge_child());
    let mut small = leaf_of(0);
    assert!(small.should_merge());
    small.apply(&Link::ChildMergeCap);
    assert!(!small.should_merge());
    assert!(!small.should_merge_eagerly());
}

#[test]
fn nodes_are_split_above_their_threshold() {
    assert!(!leaf_of(16).should_split());
    assert!(leaf_of(17).should_split());
    assert!(!index_of(256).should_split());
    assert!(index_of(257).should_split());
    assert!(!leaf_of(2).should_split_eagerly());
    assert!(leaf_of(3).should_split_eagerly());
    assert!(!index_of(2).should_split_eagerly());
    assert!(index_of(3).should_split_eagerly());
}

#[test]
fn nodes_are_merged_below_their_threshold() {
    assert!(leaf_of(3).should_merge());
    assert!(!leaf_of(4).should_merge());
    assert!(index_of(63).should_merge());
    assert!(!index_of(64).should_merge());
    assert!(leaf_of(0).should_merge_eagerly());
    assert!(!leaf_of(1).should_merge_eagerly());
}

#[test]
fn waiting_parents_are_neither_split_nor_merged() {
    let mut node = index_of(257);
    node.apply(&Link::ParentMergeIntention(5));
    assert!(!node.should_split());
    let mut node = index_of(3);
    node.apply(&Link::ParentMergeIntention(3));
    assert!(!node.should_merge());
}

#[test]
fn halves_of_a_full_node_stay() {
    let (left, right) = leaf_of(17).split();
    assert_eq!((left.data.len(), right.data.len()), (9, 8));
    assert!(!left.should_merge() && !right.should_merge());
    let (left, right) = index_of(257).split();
    assert_eq!((left.data.len(), right.data.len()), (129, 128));
    assert!(!left.should_merge() && !right.should_merge());
    let (left, right) = leaf_of(3).split();
    assert_eq!((left.data.len(), right.data.len()), (2, 1));
    assert!(!left.should_merge_eagerly() && !right.should_merge_eagerly());
}
