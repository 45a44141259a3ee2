//! The prefix tree that guides the single-pass board search: a 26-ary tree
//! keyed by lowercase letters, nodes stored in one growable arena and
//! linked by index, each node keeping the word it spells from the root.

use vstd::prelude::*;

use crate::{LETTER_A, LETTER_Z};

verus! {

/// One node of the prefix tree. `word` is the letter path from the root to
/// this node; `word_end` marks the last node of an inserted word;
/// `children` holds one optional arena index per letter a–z.
#[derive(Debug)]
pub struct TrieNode {
    pub word: Vec<u8>,
    pub word_end: bool,
    pub children: Vec<Option<usize>>,
}

/// The node reached from `i` by following `word` letter by letter, if
/// every letter is lowercase and every edge exists.
pub open spec fn node_at(nodes: Seq<TrieNode>, i: int, word: Seq<u8>) -> Option<int>
    decreases word.len(),
{
    if word.len() == 0 {
        Some(i)
    } else {
        let c = word[0];
        if !(LETTER_A <= c <= LETTER_Z) {
            None
        } else if 0 <= i < nodes.len() && nodes[i].children@.len() == 26 {
            match nodes[i].children@[c - LETTER_A] {
                Some(j) => node_at(nodes, j as int, word.skip(1)),
                None => None,
            }
        } else {
            None
        }
    }
}

/// Following `word` from `i` stays inside the tree.
pub open spec fn trie_has_path(nodes: Seq<TrieNode>, i: int, word: Seq<u8>) -> bool {
    node_at(nodes, i, word) is Some
}

/// `word` was inserted: its path from the root ends at a terminal node.
pub open spec fn trie_word(nodes: Seq<TrieNode>, word: Seq<u8>) -> bool {
    match node_at(nodes, 0, word) {
        Some(j) => nodes[j].word_end,
        None => false,
    }
}

/// The arena invariant: a root spelling the empty word; every node with
/// 26 child slots, each child later in the arena than its parent and
/// spelling its parent's word plus the edge letter; and every node's
/// stored word leading back to that node.
pub open spec fn trie_wf(nodes: Seq<TrieNode>) -> bool {
    &&& 1 <= nodes.len() <= usize::MAX
    &&& nodes[0].word@.len() == 0
    &&& forall|i: int| 0 <= i < nodes.len() ==> (#[trigger] nodes[i].children)@.len() == 26
    &&& forall|i: int, c: int|
        0 <= i < nodes.len() && 0 <= c < 26 ==> ((#[trigger] nodes[i].children@[c]) matches Some(j)
            ==> i < j < nodes.len())
    &&& forall|i: int, c: int|
        0 <= i < nodes.len() && 0 <= c < 26 ==> ((#[trigger] nodes[i].children@[c]) matches Some(j)
            ==> nodes[j as int].word@ == nodes[i].word@ + seq![(c + LETTER_A) as u8])
    &&& forall|i: int|
        0 <= i < nodes.len() ==> node_at(nodes, 0, (#[trigger] nodes[i].word)@) == Some(i)
}

impl TrieNode {
    /// Starts a tree: an empty arena gains its root.
    pub fn root(nodes: &mut Vec<TrieNode>) -> (r: usize)
        requires
            old(nodes)@.len() == 0,
        ensures
            r == 0,
            trie_wf(final(nodes)@),
            final(nodes)@.len() == 1,
            forall|w: Seq<u8>| !trie_word(final(nodes)@, w),
            !final(nodes)@[0].word_end,
    {
        let r = TrieNode::new(false, &[], nodes);
        proof {
            let ns = nodes@;
            assert(ns[0].word@ =~= Seq::<u8>::empty());
            assert forall|w: Seq<u8>| !trie_word(ns, w) by {
                if w.len() == 0 {
                    assert(node_at(ns, 0, w) == Some(0int));
                    assert(!ns[0].word_end);
                } else if LETTER_A <= w[0] <= LETTER_Z {
                    assert(ns[0].children@[w[0] - LETTER_A] is None);
                }
            }
            assert(node_at(ns, 0, ns[0].word@) == Some(0int));
        }
        r
    }

    /// Appends a fresh, childless node carrying `word` and returns its
    /// index. The rest of the arena is untouched.
    pub fn new(word_end: bool, word: &[u8], nodes: &mut Vec<TrieNode>) -> (r: usize)
        ensures
            r == old(nodes)@.len(),
            final(nodes)@.len() == old(nodes)@.len() + 1,
            forall|i: int| 0 <= i < old(nodes)@.len() ==> final(nodes)@[i] == old(nodes)@[i],
            final(nodes)@[r as int].word@ == word@,
            final(nodes)@[r as int].word_end == word_end,
            final(nodes)@[r as int].children@.len() == 26,
            forall|c: int| 0 <= c < 26 ==> final(nodes)@[r as int].children@[c] is None,
    {
        let mut children: Vec<Option<usize>> = Vec::new();
        let mut c: usize = 0;
        while c < 26
            invariant
                c <= 26,
                children@.len() == c,
                forall|m: int| 0 <= m < c ==> children@[m] is None,
            decreases 26 - c,
        {
            children.push(None);
            c = c + 1;
        }
        let r = nodes.len();
        let node = TrieNode { word: vstd::slice::slice_to_vec(word), word_end, children };
        nodes.push(node);
        r
    }

    /// Inserts `word` into the tree rooted at index 0, one letter edge at
    /// a time, creating nodes lazily and marking the word's final node
    /// terminal. Afterwards the tree holds exactly the old words plus
    /// `word`.
    pub fn insert(nodes: &mut Vec<TrieNode>, word: &[u8])
        requires
            trie_wf(old(nodes)@),
            crate::all_lowercase(word@),
        ensures
            trie_wf(final(nodes)@),
            forall|w: Seq<u8>|
                #[trigger] trie_word(final(nodes)@, w) <==> (trie_word(old(nodes)@, w) || w
                    == word@),
    {
        let ghost orig = nodes@;
        if word.len() == 0 {
            let ghost pre = nodes@;
            mark_word_end(nodes, 0);
            proof {
                lemma_mark_end(pre, nodes@, 0);
                assert(pre[0].word@ =~= word@);
            }
            return ;
        }
        let mut last: usize = 0;
        let mut l: usize = 0;
        proof {
            assert(word@.take(0) =~= Seq::<u8>::empty());
            assert(node_at(nodes@, 0, word@.take(0)) == Some(0int));
        }
        while l < word.len()
            invariant
                trie_wf(nodes@),
                crate::all_lowercase(word@),
                0 < word@.len(),
                l <= word@.len(),
                last < nodes@.len(),
                node_at(nodes@, 0, word@.take(l as int)) == Some(last as int),
                forall|w: Seq<u8>|
                    #[trigger] trie_word(nodes@, w) <==> (trie_word(orig, w) || (l == word@.len()
                        && w == word@)),
            decreases word@.len() - l,
        {
            let ghost pre = nodes@;
            let c = word[l];
            let idx = (c - LETTER_A) as usize;
            let ghost wl = word@.take(l as int);
            proof {
                lemma_node_at_word(pre, wl, last as int);
                assert(pre[last as int].word@ == wl);
                assert(word@.take(l + 1) =~= wl.push(c));
            }
            let child_opt = nodes[last].children[idx];
            let ch: usize;
            match child_opt {
                Some(c0) => {
                    ch = c0;
                    proof {
                        lemma_node_at_push(pre, 0, wl, c);
                        assert(c - LETTER_A == idx);
                        assert(node_at(pre, 0, word@.take(l + 1)) == Some(ch as int));
                    }
                    if l == word.len() - 1 {
                        mark_word_end(nodes, ch);
                        proof {
                            lemma_mark_end(pre, nodes@, ch as int);
                            assert(pre[ch as int].word@ == wl + seq![((idx
                                + LETTER_A) as u8)]);
                            assert(wl + seq![((idx + LETTER_A) as u8)] =~= word@);
                            assert forall|w: Seq<u8>| #[trigger] trie_word(nodes@, w) <==> (
                            trie_word(orig, w) || (l + 1 == word@.len() && w == word@)) by {}
                        }
                    }
                },
                None => {
                    let wslice = vstd::slice::slice_subrange(word, 0, l + 1);
                    let is_end = l == word.len() - 1;
                    ch = TrieNode::new(is_end, wslice, nodes);
                    let total = nodes.len();
                    proof {
                        assert(pre.len() < total <= usize::MAX);
                    }
                    set_child(nodes, last, idx, ch);
                    proof {
                        assert(nodes@[ch as int].word@ == pre[last as int].word@ + seq![((idx
                            + LETTER_A) as u8)]) by {
                            assert(wslice@ =~= wl.push(c));
                            assert(wl.push(c) =~= wl + seq![((idx + LETTER_A) as u8)]);
                        }
                        lemma_link_new(pre, nodes@, last as int, idx as int, ch as int);
                        assert(nodes@[ch as int].word@ =~= word@.take(l + 1));
                        if is_end {
                            assert(word@.take(l + 1) =~= word@);
                        }
                        assert forall|w: Seq<u8>| #[trigger] trie_word(nodes@, w) <==> (trie_word(
                            orig,
                            w,
                        ) || (l + 1 == word@.len() && w == word@)) by {}
                    }
                },
            }
            last = ch;
            l = l + 1;
        }
        proof {
            assert(word@.take(word@.len() as int) =~= word@);
        }
    }

    /// The child of node `at` along letter `c`, or `None` when `c` is not
    /// a lowercase letter or the edge is absent.
    pub fn get(nodes: &Vec<TrieNode>, at: usize, c: u8) -> (r: Option<usize>)
        requires
            at < nodes@.len(),
            nodes@[at as int].children@.len() == 26,
        ensures
            r == child_of(nodes@, at as int, c),
    {
        if c < LETTER_A || c > LETTER_Z {
            None
        } else {
            nodes[at].children[(c - LETTER_A) as usize]
        }
    }

    /// Walks `word` from node `at`: true when every edge exists.
    pub fn contains(nodes: &Vec<TrieNode>, at: usize, word: &[u8]) -> (r: bool)
        requires
            trie_wf(nodes@),
            at < nodes@.len(),
        ensures
            r == trie_has_path(nodes@, at as int, word@),
    {
        let mut last = at;
        let mut l: usize = 0;
        proof {
            assert(word@.skip(0) =~= word@);
        }
        while l < word.len()
            invariant
                trie_wf(nodes@),
                last < nodes@.len(),
                l <= word@.len(),
                node_at(nodes@, at as int, word@) == node_at(
                    nodes@,
                    last as int,
                    word@.skip(l as int),
                ),
            decreases word@.len() - l,
        {
            let c = word[l];
            let ghost rest = word@.skip(l as int);
            proof {
                assert(rest[0] == word@[l as int]);
                assert(rest.skip(1) =~= word@.skip(l + 1));
            }
            match TrieNode::get(nodes, last, c) {
                Some(next) => {
                    last = next;
                },
                None => {
                    return false;
                },
            }
            l = l + 1;
        }
        proof {
            assert(word@.skip(word@.len() as int) =~= Seq::<u8>::empty());
        }
        true
    }
}

/// One letter more: a walk for `u.push(c)` is a walk for `u` followed by
/// the `c` edge.
pub proof fn lemma_node_at_push(nodes: Seq<TrieNode>, i: int, u: Seq<u8>, c: u8)
    ensures
        node_at(nodes, i, u.push(c)) == (match node_at(nodes, i, u) {
            Some(j) => {
                if LETTER_A <= c <= LETTER_Z && 0 <= j < nodes.len()
                    && nodes[j].children@.len() == 26 {
                    match nodes[j].children@[c - LETTER_A] {
                        Some(t) => Some(t as int),
                        None => None,
                    }
                } else {
                    None
                }
            },
            None => None,
        }),
    decreases u.len(),
{
    let v = u.push(c);
    if u.len() == 0 {
        assert(v.len() == 1 && v[0] == c);
        assert(v.skip(1) =~= Seq::<u8>::empty());
        assert(node_at(nodes, i, u) == Some(i));
        if LETTER_A <= c <= LETTER_Z && 0 <= i < nodes.len() && nodes[i].children@.len() == 26 {
            match nodes[i].children@[c - LETTER_A] {
                Some(t) => {
                    assert(node_at(nodes, t as int, v.skip(1)) == Some(t as int));
                },
                None => {},
            }
        }
    } else {
        assert(v[0] == u[0]);
        assert(v.skip(1) =~= u.skip(1).push(c));
        if LETTER_A <= u[0] <= LETTER_Z && 0 <= i < nodes.len() && nodes[i].children@.len()
            == 26 {
            match nodes[i].children@[u[0] - LETTER_A] {
                Some(t) => {
                    lemma_node_at_push(nodes, t as int, u.skip(1), c);
                    assert(node_at(nodes, i, v) == node_at(nodes, t as int, v.skip(1)));
                    assert(node_at(nodes, i, u) == node_at(nodes, t as int, u.skip(1)));
                },
                None => {},
            }
        } else {
            assert(node_at(nodes, i, v) is None);
            assert(node_at(nodes, i, u) is None);
        }
    }
}

/// A walk's endpoint stores the start's word extended by the walked
/// letters.
pub proof fn lemma_node_at_extends(nodes: Seq<TrieNode>, i: int, w: Seq<u8>, j: int)
    requires
        trie_wf(nodes),
        0 <= i < nodes.len(),
        node_at(nodes, i, w) == Some(j),
    ensures
        0 <= j < nodes.len(),
        nodes[j].word@ == nodes[i].word@ + w,
    decreases w.len(),
{
    if w.len() == 0 {
        assert(nodes[j].word@ =~= nodes[i].word@ + w);
    } else {
        let c = w[0];
        match nodes[i].children@[c - LETTER_A] {
            Some(t) => {
                lemma_node_at_extends(nodes, t as int, w.skip(1), j);
                assert(nodes[t as int].word@ == nodes[i].word@ + seq![((c - LETTER_A) + LETTER_A) as u8]);
                assert(seq![((c - LETTER_A) + LETTER_A) as u8] =~= seq![c]);
                assert(nodes[j].word@ =~= nodes[i].word@ + w) by {
                    assert(nodes[j].word@ == (nodes[i].word@ + seq![c]) + w.skip(1));
                }
            },
            None => {},
        }
    }
}

/// Whatever a walk from the root reaches is named by its stored word.
pub proof fn lemma_node_at_word(nodes: Seq<TrieNode>, w: Seq<u8>, j: int)
    requires
        trie_wf(nodes),
        node_at(nodes, 0, w) == Some(j),
    ensures
        0 <= j < nodes.len(),
        nodes[j].word@ == w,
{
    lemma_node_at_extends(nodes, 0, w, j);
    assert(nodes[0].word@ + w =~= w);
}

/// Keeping every existing edge keeps every existing walk.
proof fn lemma_node_at_mono(olds: Seq<TrieNode>, news: Seq<TrieNode>, i: int, w: Seq<u8>, j: int)
    requires
        node_at(olds, i, w) == Some(j),
        olds.len() <= news.len(),
        forall|m: int|
            0 <= m < olds.len() ==> (#[trigger] news[m].children)@.len()
                == olds[m].children@.len(),
        forall|m: int, c: int|
            0 <= m < olds.len() && 0 <= c < 26 ==> ((#[trigger] olds[m].children@[c]) matches Some(
                t,
            ) ==> news[m].children@[c] == olds[m].children@[c]),
    ensures
        node_at(news, i, w) == Some(j),
    decreases w.len(),
{
    if w.len() > 0 {
        let c = w[0];
        match olds[i].children@[c - LETTER_A] {
            Some(t) => {
                lemma_node_at_mono(olds, news, t as int, w.skip(1), j);
            },
            None => {},
        }
    }
}

/// A walk that starts past `bound` stays past `bound` when every edge
/// there points past `bound`.
proof fn lemma_node_at_stays_out(nodes: Seq<TrieNode>, bound: int, i: int, w: Seq<u8>, j: int)
    requires
        node_at(nodes, i, w) == Some(j),
        i >= bound,
        forall|m: int, c: int|
            bound <= m < nodes.len() && 0 <= c < 26 && nodes[m].children@.len() == 26 ==> ((
            #[trigger] nodes[m].children@[c]) matches Some(t) ==> t >= bound),
    ensures
        j >= bound,
    decreases w.len(),
{
    if w.len() > 0 {
        let c = w[0];
        if LETTER_A <= c <= LETTER_Z && 0 <= i < nodes.len() && nodes[i].children@.len() == 26 {
            match nodes[i].children@[c - LETTER_A] {
                Some(t) => {
                    lemma_node_at_stays_out(nodes, bound, t as int, w.skip(1), j);
                },
                None => {},
            }
        }
    }
}

/// A walk of the grown tree that ends inside the old tree was already a
/// walk of the old tree, when every new edge leads out of it and nothing
/// out there points back in.
proof fn lemma_node_at_back(olds: Seq<TrieNode>, news: Seq<TrieNode>, i: int, w: Seq<u8>, j: int)
    requires
        node_at(news, i, w) == Some(j),
        0 <= i < olds.len(),
        0 <= j < olds.len(),
        olds.len() <= news.len(),
        forall|m: int, c: int|
            0 <= m < olds.len() && 0 <= c < 26 ==> ((#[trigger] olds[m].children@[c]) matches Some(
                t,
            ) ==> 0 <= t < olds.len()),
        forall|m: int|
            0 <= m < olds.len() ==> (#[trigger] news[m].children)@.len()
                == olds[m].children@.len(),
        forall|m: int, c: int|
            0 <= m < olds.len() && 0 <= c < 26 ==> ((#[trigger] olds[m].children@[c]) matches Some(
                t,
            ) ==> news[m].children@[c] == olds[m].children@[c]),
        forall|m: int, c: int|
            0 <= m < olds.len() && 0 <= c < 26 && olds[m].children@.len() == 26
                && olds[m].children@[c] is None ==> ((#[trigger] news[m].children@[c]) matches Some(
                t,
            ) ==> t >= olds.len()),
        forall|m: int, c: int|
            olds.len() <= m < news.len() && 0 <= c < 26 && news[m].children@.len() == 26 ==> ((
            #[trigger] news[m].children@[c]) matches Some(t) ==> t >= olds.len()),
    ensures
        node_at(olds, i, w) == Some(j),
    decreases w.len(),
{
    if w.len() > 0 {
        let c = w[0];
        if olds[i].children@.len() == 26 {
            match news[i].children@[c - LETTER_A] {
                Some(t) => {
                    if olds[i].children@[c - LETTER_A] is None {
                        lemma_node_at_stays_out(news, olds.len() as int, t as int, w.skip(1), j);
                        assert(false);
                    } else {
                        assert(olds[i].children@[c - LETTER_A] == news[i].children@[c - LETTER_A]);
                        lemma_node_at_back(olds, news, t as int, w.skip(1), j);
                    }
                },
                None => {},
            }
        }
    }
}

/// Sets the terminal flag of node `i`; everything else is kept.
fn mark_word_end(nodes: &mut Vec<TrieNode>, i: usize)
    requires
        i < old(nodes)@.len(),
    ensures
        final(nodes)@.len() == old(nodes)@.len(),
        forall|m: int|
            0 <= m < old(nodes)@.len() && m != i ==> #[trigger] final(nodes)@[m] == old(
                nodes,
            )@[m],
        final(nodes)@[i as int].word == old(nodes)@[i as int].word,
        final(nodes)@[i as int].children == old(nodes)@[i as int].children,
        final(nodes)@[i as int].word_end,
{
    nodes[i].word_end = true;
}

/// Points child slot `c` of node `i` at node `ch`; everything else is
/// kept.
fn set_child(nodes: &mut Vec<TrieNode>, i: usize, c: usize, ch: usize)
    requires
        i < old(nodes)@.len(),
        c < old(nodes)@[i as int].children@.len(),
    ensures
        final(nodes)@.len() == old(nodes)@.len(),
        forall|m: int|
            0 <= m < old(nodes)@.len() && m != i ==> #[trigger] final(nodes)@[m] == old(
                nodes,
            )@[m],
        final(nodes)@[i as int].word == old(nodes)@[i as int].word,
        final(nodes)@[i as int].word_end == old(nodes)@[i as int].word_end,
        final(nodes)@[i as int].children@ == old(nodes)@[i as int].children@.update(
            c as int,
            Some(ch),
        ),
{
    nodes[i].children[c] = Some(ch);
}

/// Marking one node terminal adds exactly that node's word to the tree.
proof fn lemma_mark_end(pre: Seq<TrieNode>, now: Seq<TrieNode>, ch: int)
    requires
        trie_wf(pre),
        0 <= ch < pre.len(),
        now.len() == pre.len(),
        forall|i: int|
            0 <= i < pre.len() ==> (#[trigger] now[i]).word == pre[i].word && now[i].children
                == pre[i].children,
        forall|i: int| 0 <= i < pre.len() && i != ch ==> (#[trigger] now[i]).word_end == pre[i].word_end,
        now[ch].word_end,
    ensures
        trie_wf(now),
        forall|w: Seq<u8>|
            #[trigger] trie_word(now, w) <==> (trie_word(pre, w) || w == pre[ch].word@),
        forall|i: int, w: Seq<u8>|
            0 <= i < pre.len() ==> #[trigger] node_at(now, i, w) == node_at(pre, i, w),
{
    assert forall|i: int, w: Seq<u8>| 0 <= i < pre.len() implies #[trigger] node_at(now, i, w)
        == node_at(pre, i, w) by {
        match node_at(pre, i, w) {
            Some(j) => lemma_node_at_mono(pre, now, i, w, j),
            None => (),
        }
        match node_at(now, i, w) {
            Some(j) => lemma_node_at_mono(now, pre, i, w, j),
            None => (),
        }
    }
    assert(trie_wf(now));
    assert forall|w: Seq<u8>| #[trigger] trie_word(now, w) <==> (trie_word(pre, w) || w
        == pre[ch].word@) by {
        if trie_word(now, w) {
            let j = node_at(now, 0, w)->Some_0;
            lemma_node_at_word(now, w, j);
            if j != ch {
                assert(trie_word(pre, w));
            } else {
                assert(w == pre[ch].word@);
            }
        }
        if trie_word(pre, w) {
            let j = node_at(pre, 0, w)->Some_0;
            lemma_node_at_word(pre, w, j);
            assert(node_at(now, 0, w) == Some(j));
            assert(now[j].word_end);
        }
        if w == pre[ch].word@ {
            assert(node_at(pre, 0, w) == Some(ch));
            assert(node_at(now, 0, w) == Some(ch));
            assert(now[ch].word_end);
        }
    }
}

/// Linking one fresh, childless node adds exactly its word to the walks,
/// and that word to the tree when the node is terminal.
proof fn lemma_link_new(pre: Seq<TrieNode>, now: Seq<TrieNode>, last: int, cc: int, ch: int)
    requires
        trie_wf(pre),
        0 <= last < pre.len(),
        0 <= cc < 26,
        pre[last].children@[cc] is None,
        ch == pre.len(),
        now.len() == pre.len() + 1,
        forall|i: int|
            0 <= i < pre.len() && i != last ==> #[trigger] now[i] == pre[i],
        now[last].word == pre[last].word,
        now[last].word_end == pre[last].word_end,
        now[last].children@ == pre[last].children@.update(cc, Some(ch as usize)),
        now[ch].word@ == pre[last].word@ + seq![(cc + LETTER_A) as u8],
        now[ch].children@.len() == 26,
        forall|c2: int| 0 <= c2 < 26 ==> (#[trigger] now[ch].children@[c2]) is None,
        pre.len() < usize::MAX,
    ensures
        trie_wf(now),
        forall|w: Seq<u8>|
            #[trigger] trie_word(now, w) <==> (trie_word(pre, w) || (now[ch].word_end && w
                == now[ch].word@)),
        node_at(now, 0, now[ch].word@) == Some(ch),
        forall|i: int, w: Seq<u8>|
            0 <= i < pre.len() && (#[trigger] node_at(pre, i, w)) is Some ==> node_at(now, i, w)
                == node_at(pre, i, w),
{
    assert forall|i: int, w: Seq<u8>|
        0 <= i < pre.len() && (#[trigger] node_at(pre, i, w)) is Some implies node_at(now, i, w)
        == node_at(pre, i, w) by {
        match node_at(pre, i, w) {
            Some(j) => lemma_node_at_mono(pre, now, i, w, j),
            None => (),
        }
    }
    let cw = now[ch].word@;
    assert(node_at(now, 0, cw) == Some(ch)) by {
        let pw = pre[last].word@;
        assert(node_at(pre, 0, pw) == Some(last));
        assert(node_at(now, 0, pw) == Some(last));
        let c = ((cc + LETTER_A) as u8);
        assert(cw =~= pw.push(c));
        lemma_node_at_push(now, 0, pw, c);
        assert(c - LETTER_A == cc);
        assert(now[last].children@[cc] == Some(ch as usize));
    }
    assert(trie_wf(now)) by {
        assert forall|i: int| 0 <= i < now.len() implies node_at(now, 0, (#[trigger] now[i].word)@)
            == Some(i) by {
            if i < pre.len() {
                assert(node_at(pre, 0, pre[i].word@) == Some(i));
                assert(now[i].word == pre[i].word);
            } else {
                assert(i == ch);
            }
        }
        assert forall|i: int, c2: int|
            0 <= i < now.len() && 0 <= c2 < 26 implies ((#[trigger] now[i].children@[c2]) matches
        Some(j) ==> i < j < now.len() && now[j as int].word@ == now[i].word@ + seq![(c2
            + LETTER_A) as u8]) by {
            if i < pre.len() {
                if i == last && c2 == cc {
                } else {
                    assert(now[i].children@[c2] == pre[i].children@[c2]);
                }
            }
        }
    }
    assert forall|w: Seq<u8>| #[trigger] trie_word(now, w) <==> (trie_word(pre, w)
        || (now[ch].word_end && w == cw)) by {
        if trie_word(now, w) {
            let j = node_at(now, 0, w)->Some_0;
            lemma_node_at_word(now, w, j);
            if j < pre.len() {
                lemma_node_at_back(pre, now, 0, w, j);
                assert(trie_word(pre, w));
            } else {
                assert(j == ch);
                assert(w == cw);
            }
        }
        if trie_word(pre, w) {
            let j = node_at(pre, 0, w)->Some_0;
            lemma_node_at_word(pre, w, j);
            assert(node_at(now, 0, w) == Some(j));
            assert(now[j].word_end);
        }
        if now[ch].word_end && w == cw {
            assert(node_at(now, 0, w) == Some(ch));
        }
    }
}

/// The child of node `i` along letter `c`: `None` for a byte outside a–z
/// or a missing edge.
pub open spec fn child_of(nodes: Seq<TrieNode>, i: int, c: u8) -> Option<usize> {
    if !(LETTER_A <= c <= LETTER_Z) {
        None
    } else {
        nodes[i].children@[c - LETTER_A]
    }
}

} // verus!
