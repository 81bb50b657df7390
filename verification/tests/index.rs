use bnode::{Data, IVec, Index, Node};

fn iv(bytes: &[u8]) -> IVec {
    IVec::copy_of(bytes)
}

fn index(prefix_len: u8, lo: &[u8], hi: &[u8], children: &[(&[u8], u64)]) -> Node {
    Node {
        prefix_len,
        next: None,
        merging_child: None,
        merging: false,
        lo: iv(lo),
        hi: iv(hi),
        data: Data::Index(Index {
            keys: children.iter().map(|c| iv(c.0)).collect(),
            pointers: children.iter().map(|c| c.1).collect(),
        }),
    }
}

#[test]
fn keys_go_to_the_last_child_that_begins_before_them() {
    let node = index(1, b"k", b"l", &[(b"", 11), (b"d", 12), (b"m", 13)]);
    assert_eq!(node.index_next_node(b"k"), (0, 11));
    assert_eq!(node.index_next_node(b"kc"), (0, 11));
    assert_eq!(node.index_next_node(b"kd"), (1, 12));
    assert_eq!(node.index_next_node(b"klzz"), (1, 12));
    assert_eq!(node.index_next_node(b"km"), (2, 13));
    assert_eq!(node.index_next_node(b"kzzz"), (2, 13));
}

#[test]
fn a_new_child_takes_over_from_its_beginning_on() {
    let mut node = index(1, b"k", b"l", &[(b"", 11), (b"d", 12), (b"m", 13)]);
    assert!(node.parent_split(b"kg", 14));
    assert_eq!(node, index(1, b"k", b"l", &[(b"", 11), (b"d", 12), (b"g", 14), (b"m", 13)]));
    assert_eq!(node.index_next_node(b"kf"), (1, 12));
    assert_eq!(node.index_next_node(b"kg"), (2, 14));
    assert_eq!(node.index_next_node(b"klz"), (2, 14));
    assert_eq!(node.index_next_node(b"km"), (3, 13));
}

#[test]
fn a_child_that_is_there_already_is_skipped() {
    let mut node = index(1, b"k", b"l", &[(b"", 11), (b"d", 12)]);
    let before = node.clone();
    assert!(!node.parent_split(b"kd", 99));
    assert_eq!(node, before);
    assert!(node.parent_split(b"ke", 99));
    let once = node.clone();
    assert!(!node.parent_split(b"ke", 100));
    assert_eq!(node, once);
}

#[test]
fn a_merged_child_leaves_its_keys_to_the_left() {
    let mut node = index(0, b"", b"", &[(b"", 11), (b"d", 12), (b"m", 13)]);
    node.data.parent_merge_confirm(12);
    assert_eq!(node, index(0, b"", b"", &[(b"", 11), (b"m", 13)]));
    assert_eq!(node.index_next_node(b"e"), (0, 11));
    assert_eq!(node.index_next_node(b"n"), (1, 13));
}

#[test]
fn confirming_removes_the_first_of_equal_children() {
    let mut node = index(0, b"", b"", &[(b"", 11), (b"d", 12), (b"m", 12)]);
    node.data.parent_merge_confirm(12);
    assert_eq!(node, index(0, b"", b"", &[(b"", 11), (b"m", 12)]));
}

#[test]
fn removing_a_child_undoes_adding_it() {
    let before = index(0, b"", b"", &[(b"", 11), (b"m", 13)]);
    let mut node = before.clone();
    assert!(node.parent_split(b"g", 77));
    node.data.parent_merge_confirm(77);
    assert_eq!(node, before);
}

#[test]
fn an_index_tells_where_children_begin() {
    let mut table = Index { keys: vec![iv(b"b"), iv(b"d")], pointers: vec![1, 2] };
    assert_eq!(table.len(), 2);
    assert!(table.contains_key(b"b"));
    assert!(!table.contains_key(b"c"));
    table.insert(b"c", 3);
    assert!(table.contains_key(b"c"));
    assert_eq!(table, Index { keys: vec![iv(b"b"), iv(b"c"), iv(b"d")], pointers: vec![1, 3, 2] });
}

#[test]
fn memory_follows_the_children() {
    let mut node = index(1, b"k", b"l", &[(b"", 11), (b"d", 12)]);
    let before = node.rss();
    assert!(node.parent_split(b"kgg", 14));
    assert_eq!(node.rss(), before + 2 + 8);
    node.data.parent_merge_confirm(12);
    assert_eq!(node.rss(), before + 2 + 8 - (1 + 8));
}
