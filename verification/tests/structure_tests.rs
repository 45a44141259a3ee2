use boggle::multivec::{Vec2, Vec3};
use boggle::trie::TrieNode;

#[test]
fn multivec_smoke() {
    let mut v = Vec3::fill(3, 4, 4, false);
    v.set((1, 2, 0), true);
    assert!(v.get((1, 2, 0)));
}

#[test]
fn trie_smoke() {
    let mut arena = Vec::new();
    let root = TrieNode::root(&mut arena);
    let words: &[&[u8]] = &[b"test", b"foo", b"bar", b"baz"];

    for word in words {
        TrieNode::insert(&mut arena, word);
    }

    assert!(TrieNode::contains(&arena, root, b"test"));
    assert!(TrieNode::contains(&arena, root, b"foo"));
    assert!(TrieNode::contains(&arena, root, b"bar"));
    assert!(TrieNode::contains(&arena, root, b"baz"));
    assert!(!TrieNode::contains(&arena, root, b"dne"));
}

#[test]
fn multivec_cells_independent() {
    let mut v = Vec2::fill(4, 4, false);
    v.set((0, 0), true);
    v.set((3, 3), true);
    assert!(v.get((0, 0)));
    assert!(v.get((3, 3)));
    assert!(!v.get((0, 3)));
    assert!(!v.get((3, 0)));
    v.set((0, 0), false);
    assert!(!v.get((0, 0)));
    assert!(v.get((3, 3)));
}

#[test]
fn trie_prefix_walks() {
    let mut arena = Vec::new();
    let root = TrieNode::root(&mut arena);
    TrieNode::insert(&mut arena, b"abcd");
    // every prefix is a path, a detour is not
    assert!(TrieNode::contains(&arena, root, b""));
    assert!(TrieNode::contains(&arena, root, b"a"));
    assert!(TrieNode::contains(&arena, root, b"abc"));
    assert!(TrieNode::contains(&arena, root, b"abcd"));
    assert!(!TrieNode::contains(&arena, root, b"abd"));
    assert!(!TrieNode::contains(&arena, root, b"b"));
    // get follows one edge; a byte outside a-z has none
    let a = TrieNode::get(&arena, root, b'a').unwrap();
    assert!(TrieNode::get(&arena, a, b'b').is_some());
    assert!(TrieNode::get(&arena, a, b'c').is_none());
    assert!(TrieNode::get(&arena, root, b'!').is_none());
}
