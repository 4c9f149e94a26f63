use strings::node::{Node, NodeAction, MAX_LEAF};

fn text(n: &Node) -> Vec<u8> {
    let mut out = Vec::new();
    n.collect(&mut out);
    out
}

fn leaf(s: &str) -> Node {
    let v = s.as_bytes().to_vec();
    Node::build(&v, 0, v.len())
}

#[test]
fn node_insert_into_roomy_leaf_adjusts() {
    let mut n = leaf("hello");
    match n.insert(5, b" there") {
        NodeAction::Adjust(d) => assert_eq!(d, 6),
        _ => panic!("expected Adjust"),
    }
    assert_eq!(text(&n), b"hello there".to_vec());
    assert_eq!(n.text_len(), 11);
}

#[test]
fn node_insert_past_leaf_size_changes() {
    let mut n = leaf("ab");
    let big = vec![b'x'; MAX_LEAF];
    match n.insert(1, &big) {
        NodeAction::Change(node, d) => {
            assert_eq!(d, MAX_LEAF as isize);
            let t = text(&node);
            assert_eq!(t.len(), MAX_LEAF + 2);
            assert_eq!(t[0], b'a');
            assert_eq!(t[MAX_LEAF + 1], b'b');
        }
        _ => panic!("expected Change"),
    }
}

#[test]
fn node_remove_whole_leaf_removes() {
    let mut n = leaf("abc");
    assert!(matches!(n.remove(0, 3), NodeAction::Remove));
}

#[test]
fn node_remove_part_of_leaf_adjusts() {
    let mut n = leaf("abcdef");
    match n.remove(1, 4) {
        NodeAction::Adjust(d) => assert_eq!(d, -3),
        _ => panic!("expected Adjust"),
    }
    assert_eq!(text(&n), b"aef".to_vec());
}

#[test]
fn node_remove_whole_subtree_changes_to_sibling() {
    let v: Vec<u8> = (0..600u32).map(|i| b'a' + (i % 26) as u8).collect();
    let mut n = Node::build(&v, 0, v.len());
    match n.remove(0, 300) {
        NodeAction::Change(node, d) => {
            assert_eq!(d, -300);
            assert_eq!(text(&node), v[300..].to_vec());
        }
        _ => panic!("expected Change"),
    }
}

#[test]
fn node_remove_merges_small_remainder() {
    let v: Vec<u8> = (0..600u32).map(|i| b'a' + (i % 26) as u8).collect();
    let mut n = Node::build(&v, 0, v.len());
    match n.remove(10, 590) {
        NodeAction::Change(node, d) => {
            assert_eq!(d, -580);
            assert!(matches!(*node, Node::Leaf(_)));
            let mut expected = v[..10].to_vec();
            expected.extend_from_slice(&v[590..]);
            assert_eq!(text(&node), expected);
        }
        _ => panic!("expected Change"),
    }
}

#[test]
fn node_build_splits_at_char_boundaries() {
    let s: String = std::iter::repeat("€").take(200).collect();
    let v = s.as_bytes().to_vec();
    let n = Node::build(&v, 0, v.len());
    assert_eq!(text(&n), v);
    let mut out = Vec::new();
    n.find_slice(0, v.len(), &mut out);
    assert!(out.len() > 1);
    for chunk in out {
        assert!(chunk.len() <= MAX_LEAF);
        assert!(std::str::from_utf8(chunk).is_ok());
    }
}
