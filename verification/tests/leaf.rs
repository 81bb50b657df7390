use bnode::{Data, IVec, Index, Leaf, Node, NonZeroPid};

fn iv(bytes: &[u8]) -> IVec {
    IVec::copy_of(bytes)
}

fn ivs(list: &[&[u8]]) -> Vec<IVec> {
    list.iter().map(|b| iv(b)).collect()
}

fn leaf(prefix_len: u8, lo: &[u8], hi: &[u8], keys: &[&[u8]], values: &[&[u8]]) -> Node {
    Node {
        prefix_len,
        next: NonZeroPid::new(9),
        merging_child: None,
        merging: false,
        lo: iv(lo),
        hi: iv(hi),
        data: Data::Leaf(Leaf { keys: ivs(keys), values: ivs(values) }),
    }
}

#[test]
fn a_new_node_is_an_empty_leaf_for_all_keys() {
    let node = Node::default();
    assert_eq!(
        node,
        Node {
            prefix_len: 0,
            next: None,
            merging_child: None,
            merging: false,
            lo: iv(b""),
            hi: iv(b""),
            data: Data::Leaf(Leaf { keys: vec![], values: vec![] }),
        }
    );
    assert_eq!(node.node_kv_pair(b"any"), (iv(b"any"), None));
    assert_eq!(node.data, Data::default());
    assert_eq!(Leaf::default(), Leaf { keys: vec![], values: vec![] });
    assert_eq!(Index::default(), Index { keys: vec![], pointers: vec![] });
}

#[test]
fn new_keys_are_put_in_order() {
    let mut node = leaf(1, b"ka", b"kz", &[b"b", b"d"], &[b"1", b"2"]);
    node.set_leaf(iv(b"c"), iv(b"3"));
    node.set_leaf(iv(b"aa"), iv(b"4"));
    node.set_leaf(iv(b"y"), iv(b"5"));
    assert_eq!(
        node,
        leaf(1, b"ka", b"kz", &[b"aa", b"b", b"c", b"d", b"y"], &[b"4", b"1", b"3", b"2", b"5"])
    );
}

#[test]
fn a_key_keeps_its_last_value() {
    let mut node = leaf(0, b"", b"", &[b"b", b"d"], &[b"1", b"2"]);
    node.set_leaf(iv(b"d"), iv(b"new"));
    assert_eq!(node, leaf(0, b"", b"", &[b"b", b"d"], &[b"1", b"new"]));
    assert_eq!(node.node_kv_pair(b"d"), (iv(b"d"), Some(iv(b"new"))));
    assert_eq!(node.node_kv_pair(b"b"), (iv(b"b"), Some(iv(b"1"))));
}

#[test]
fn deleting_takes_the_key_and_its_value() {
    let mut node = leaf(0, b"", b"", &[b"b", b"d", b"f"], &[b"1", b"2", b"3"]);
    node.del_leaf(&iv(b"d"));
    assert_eq!(node, leaf(0, b"", b"", &[b"b", b"f"], &[b"1", b"3"]));
    node.del_leaf(&iv(b"d"));
    node.del_leaf(&iv(b"zz"));
    assert_eq!(node, leaf(0, b"", b"", &[b"b", b"f"], &[b"1", b"3"]));
    node.del_leaf(&iv(b"b"));
    node.del_leaf(&iv(b"f"));
    assert_eq!(node, leaf(0, b"", b"", &[], &[]));
}

#[test]
fn setting_and_deleting_leaves_what_was_there() {
    let before = leaf(0, b"", b"", &[b"b", b"d"], &[b"1", b"2"]);
    let mut node = before.clone();
    node.set_leaf(iv(b"c"), iv(b"9"));
    assert_ne!(node, before);
    node.del_leaf(&iv(b"c"));
    assert_eq!(node, before);
}

#[test]
fn reads_take_whole_keys_and_return_encoded_ones() {
    let node = leaf(2, b"kaa", b"kaz", &[b"b", b"d"], &[b"1", b"2"]);
    assert_eq!(node.prefix(), b"ka");
    assert_eq!(node.node_kv_pair(b"kab"), (iv(b"b"), Some(iv(b"1"))));
    assert_eq!(node.node_kv_pair(b"kad"), (iv(b"d"), Some(iv(b"2"))));
    assert_eq!(node.node_kv_pair(b"kac"), (iv(b"c"), None));
    assert_eq!(node.leaf_pair_for_key(b"kad"), Some((&iv(b"d"), &iv(b"2"))));
    assert_eq!(node.leaf_pair_for_key(b"kadd"), None);
}

#[test]
fn memory_is_the_node_and_its_bytes() {
    let own = std::mem::size_of::<Node>() as u64;
    let node = leaf(0, b"lo", b"zzz", &[b"lob", b"mo"], &[b"1", b"seven77"]);
    assert_eq!(node.data.rss(), 3 + 1 + 2 + 7);
    assert_eq!(node.rss(), own + 2 + 3 + 13);
    assert_eq!(Node::default().rss(), own);
    let index = Data::Index(Index { keys: ivs(&[b"a", b"bcd"]), pointers: vec![1, 2] });
    assert_eq!(index.rss(), (1 + 8) + (3 + 8));
}

#[test]
fn data_knows_its_kind_and_length() {
    let leaf = Leaf { keys: ivs(&[b"a", b"b"]), values: ivs(&[b"1", b"2"]) };
    let index = Index { keys: ivs(&[b"a", b"b", b"c"]), pointers: vec![1, 2, 3] };
    let l = Data::Leaf(leaf.clone());
    let i = Data::Index(index.clone());
    assert_eq!(l.len(), 2);
    assert_eq!(i.len(), 3);
    assert!(!l.is_index());
    assert!(i.is_index());
    assert_eq!(l.leaf_ref(), Some(&leaf));
    assert_eq!(l.index_ref(), None);
    assert_eq!(i.leaf_ref(), None);
    assert_eq!(i.index_ref(), Some(&index));
}

#[test]
fn memory_follows_the_entries() {
    let mut node = leaf(0, b"", b"", &[b"b", b"d"], &[b"1", b"22"]);
    let before = node.rss();
    node.set_leaf(iv(b"ccc"), iv(b"55555"));
    assert_eq!(node.rss(), before + 3 + 5);
    node.set_leaf(iv(b"d"), iv(b"4444"));
    assert_eq!(node.rss(), before + 3 + 5 - 2 + 4);
    node.set_leaf(iv(b"d"), iv(b""));
    assert_eq!(node.rss(), before + 3 + 5 - 2);
    node.del_leaf(&iv(b"ccc"));
    node.del_leaf(&iv(b"none"));
    assert_eq!(node.rss(), before - 2);
}
