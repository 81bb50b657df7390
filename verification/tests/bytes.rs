use bnode::order::{compare, shared_len, Relation};
use bnode::prefix::{decode, reencode};
use bnode::search::{binary_search_lub, search};
use bnode::{is_sorted, IVec, NonZeroPid};

fn iv(bytes: &[u8]) -> IVec {
    IVec::copy_of(bytes)
}

#[test]
fn shared_bytes_are_counted_from_the_front() {
    assert_eq!(shared_len(b"", b""), 0);
    assert_eq!(shared_len(b"", b"abc"), 0);
    assert_eq!(shared_len(b"abc", b"abd"), 2);
    assert_eq!(shared_len(b"abc", b"abc"), 3);
    assert_eq!(shared_len(b"ab", b"abc"), 2);
    assert_eq!(shared_len(b"xabc", b"yabc"), 0);
}

#[test]
fn byte_strings_compare_lexicographically() {
    assert_eq!(compare(b"", b""), Relation::Same);
    assert_eq!(compare(b"", b"a"), Relation::Before);
    assert_eq!(compare(b"ab", b"abc"), Relation::Before);
    assert_eq!(compare(b"abc", b"ab"), Relation::After);
    assert_eq!(compare(b"b", b"abc"), Relation::After);
    assert_eq!(compare(&[255], &[1, 2, 3]), Relation::After);
    assert_eq!(compare(&[127], &[128]), Relation::Before);
}

#[test]
fn owned_strings_order_like_their_bytes() {
    assert!(iv(b"abc") < iv(b"abd"));
    assert!(iv(b"ab") < iv(b"abc"));
    assert!(iv(b"b") > iv(b"abc"));
    assert!(iv(b"abc") <= iv(b"abc"));
    assert_eq!(iv(b"abc"), iv(b"abc"));
    assert_ne!(iv(b"abc"), iv(b"abcd"));
    assert_eq!(iv(b"abc").clone(), iv(b"abc"));
    assert_eq!(IVec::default().len(), 0);
    assert!(IVec::new().is_empty());
    assert!(!iv(&[0]).is_empty());
    let from: IVec = vec![1, 2].into();
    assert_eq!(from.as_slice(), &[1, 2]);
}

#[test]
fn decoding_puts_the_prefix_back() {
    assert_eq!(decode(b"us", b"er"), iv(b"user"));
    assert_eq!(decode(b"", b"er"), iv(b"er"));
    assert_eq!(decode(b"us", b""), iv(b"us"));
}

#[test]
fn reencoding_moves_bytes_between_prefix_and_key() {
    // a longer prefix
    assert_eq!(reencode(b"us", &iv(b"er1"), 4), iv(b"1"));
    // a shorter prefix
    assert_eq!(reencode(b"us", &iv(b"er1"), 1), iv(b"ser1"));
    assert_eq!(reencode(b"us", &iv(b"er1"), 0), iv(b"user1"));
    // the same prefix
    assert_eq!(reencode(b"us", &iv(b"er1"), 2), iv(b"er1"));
    // the whole key, and more than that
    assert_eq!(reencode(b"us", &iv(b"er1"), 5), iv(b""));
    assert_eq!(reencode(b"us", &iv(b"er1"), 9), iv(b""));
}

#[test]
fn searching_finds_the_key_or_its_place() {
    let keys = vec![iv(b"b"), iv(b"d"), iv(b"f")];
    assert_eq!(search(&keys, b"b"), Ok(0));
    assert_eq!(search(&keys, b"d"), Ok(1));
    assert_eq!(search(&keys, b"f"), Ok(2));
    assert_eq!(search(&keys, b"a"), Err(0));
    assert_eq!(search(&keys, b"c"), Err(1));
    assert_eq!(search(&keys, b"da"), Err(2));
    assert_eq!(search(&keys, b"z"), Err(3));
    assert_eq!(search(&Vec::new(), b"z"), Err(0));
}

#[test]
fn searching_from_above_finds_the_last_key_not_above() {
    let keys = vec![iv(b"b"), iv(b"d"), iv(b"f")];
    assert_eq!(binary_search_lub(b"a", &keys), None);
    assert_eq!(binary_search_lub(b"b", &keys), Some(0));
    assert_eq!(binary_search_lub(b"c", &keys), Some(0));
    assert_eq!(binary_search_lub(b"f", &keys), Some(2));
    assert_eq!(binary_search_lub(b"zz", &keys), Some(2));
    assert_eq!(binary_search_lub(b"a", &Vec::new()), None);
}

#[test]
fn sorted_lists_are_recognised() {
    assert!(is_sorted::<u64>(&[]));
    assert!(is_sorted(&[3]));
    assert!(is_sorted(&[1, 2, 2, 3]));
    assert!(!is_sorted(&[1, 3, 2]));
    assert!(!is_sorted(&[2, 1]));
    assert!(is_sorted(&[iv(b"a"), iv(b"ab"), iv(b"b")]));
    assert!(!is_sorted(&[iv(b"a"), iv(b"b"), iv(b"ab")]));
}

#[test]
fn page_zero_is_no_reference() {
    assert_eq!(NonZeroPid::new(0), None);
    assert_eq!(NonZeroPid::new(7).map(|p| p.get()), Some(7));
}
