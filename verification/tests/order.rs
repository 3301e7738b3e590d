use rkd::cursor::VecIterator;
use rkd::node::FSNode;
use rkd::order::{best_prefix_match, rev_less, reversed_bytes, BestPrefixMatch};
use rkd::rkd::RKD;
use rkd::sort::sort_revpath;
use rkd::text::{decimal_string, prefix_match_len};

fn nodes(paths: &[&str]) -> Vec<FSNode> {
    paths.iter().map(|p| FSNode::new(p.to_string(), None)).collect()
}

#[test]
fn paths_are_sorted_by_their_ends() {
    let all = nodes(&["b/z", "a/x", "c/x", "x", "", "a/x"]);
    let mut ids: Vec<usize> = vec![0, 1, 2, 3, 4, 5];
    sort_revpath(&all, &mut ids);
    assert_eq!(ids, vec![4, 3, 1, 5, 2, 0]);
}

#[test]
fn sorting_agrees_with_the_standard_sort() {
    let paths = ["ab", "b", "\u{e9}b", "cab", "", "b", "a\u{e8}", "ba", "ab", "/", "a/", "zz/ab"];
    let all = nodes(&paths);
    let mut ids: Vec<usize> = (0..paths.len()).rev().collect();
    let mut expected = ids.clone();
    sort_revpath(&all, &mut ids);
    expected.sort_by(|l, r| paths[*l].bytes().rev().cmp(paths[*r].bytes().rev()));
    assert_eq!(ids, expected);
}

#[test]
fn ends_are_compared_by_bytes() {
    assert!(rev_less("xa", "ab"));
    assert!(rev_less("b", "ab"));
    assert!(!rev_less("ab", "b"));
    assert!(!rev_less("ab", "ab"));
    assert_eq!(reversed_bytes("a\u{e9}"), vec![0xa9, 0xc3, 0x61]);
}

#[test]
fn longer_match_wins() {
    assert_eq!(best_prefix_match(b"abc", b"abd", b"axx"), BestPrefixMatch::First);
    assert_eq!(best_prefix_match(b"abc", b"axx", b"abd"), BestPrefixMatch::Second);
    assert_eq!(best_prefix_match(b"abc", b"abx", b"aby"), BestPrefixMatch::Neither);
    assert_eq!(best_prefix_match(b"ab", b"abx", b"aby"), BestPrefixMatch::Neither);
    assert_eq!(best_prefix_match(b"abc", b"ab", b"abc"), BestPrefixMatch::Second);
    assert_eq!(best_prefix_match(b"", b"a", b""), BestPrefixMatch::Neither);
}

#[test]
fn source_with_the_longest_common_end_is_matched() {
    let all = nodes(&["p/one", "p/three", "p/two", "q/three", "q/zzz", "q/0"]);
    let mut l: Vec<usize> = vec![0, 1, 2];
    sort_revpath(&all, &mut l);
    assert_eq!(l, vec![1, 0, 2]);
    let mut it = VecIterator::new(&l);
    assert_eq!(RKD::match_right(&all, &mut it, 5), 1);
    assert_eq!(RKD::match_right(&all, &mut it, 3), 1);
    assert_eq!(RKD::match_right(&all, &mut it, 4), 2);
    assert_eq!(it.curr(), None);
    assert_eq!(it.prev(), Some(&2));
}

#[test]
fn tie_goes_to_the_later_candidate() {
    let all = nodes(&["b", "d", "c"]);
    let l: Vec<usize> = vec![0, 1];
    let mut it = VecIterator::new(&l);
    assert_eq!(RKD::match_right(&all, &mut it, 2), 1);
}

#[test]
fn cursor_walks_over_the_items() {
    let items = vec!['a', 'b'];
    let mut it = VecIterator::new(&items);
    assert_eq!((it.prev(), it.curr()), (None, Some(&'a')));
    it.advance();
    assert_eq!((it.prev(), it.curr()), (Some(&'a'), Some(&'b')));
    it.advance();
    assert_eq!((it.prev(), it.curr()), (Some(&'b'), None));
    it.advance();
    assert_eq!((it.prev(), it.curr()), (None, None));
}

#[test]
fn common_characters_are_counted() {
    assert_eq!(prefix_match_len("abc", "abd"), 2);
    assert_eq!(prefix_match_len("\u{e9}\u{e9}x", "\u{e9}\u{e9}y"), 2);
    assert_eq!(prefix_match_len("abc", "abc"), 3);
    assert_eq!(prefix_match_len("", "abc"), 0);
}

#[test]
fn numbers_are_written_in_decimal() {
    assert_eq!(decimal_string(0), "0");
    assert_eq!(decimal_string(10), "10");
    assert_eq!(decimal_string(usize::MAX), format!("{}", usize::MAX));
}
