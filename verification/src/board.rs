//! The letter grid: parsing, adjacency queries, and the word searches.

use vstd::prelude::*;

use vstd::string::StringSliceAdditionalSpecFns;

use crate::error::Error;
use crate::lines::{lines_of, split_lines};
use crate::multivec::{Vec2, Vec3};
use crate::trie::{node_at, trie_wf, trie_word, TrieNode};
use crate::{all_lowercase, LETTER_A, LETTER_Z};
use crate::trie::child_of;

verus! {

/// A square grid of ASCII lowercase letters, plus a record of which letters
/// appear anywhere on it.
#[derive(Debug)]
pub struct Board {
    board: Vec<Vec<u8>>,
    letters: Vec<bool>,
}

/// `p` is a cell of an `n`×`n` grid.
pub open spec fn in_bounds(n: int, p: (int, int)) -> bool {
    0 <= p.0 < n && 0 <= p.1 < n
}

/// `p` and `q` are distinct cells that touch, diagonals included.
pub open spec fn adjacent(p: (int, int), q: (int, int)) -> bool {
    p != q && -1 <= p.0 - q.0 <= 1 && -1 <= p.1 - q.1 <= 1
}

/// The letter of `b` at cell `p`.
pub open spec fn letter_at(b: Seq<Seq<u8>>, p: (int, int)) -> u8 {
    b[p.0][p.1]
}

/// The rows form a square grid, at least 3×3, of lowercase letters, whose
/// cell count fits the machine word.
pub open spec fn board_wf(b: Seq<Seq<u8>>) -> bool {
    &&& b.len() >= 3
    &&& forall|i: int| 0 <= i < b.len() ==> (#[trigger] b[i]).len() == b.len()
    &&& forall|i: int| 0 <= i < b.len() ==> all_lowercase(#[trigger] b[i])
    &&& b.len() * b.len() <= isize::MAX
}

/// The letter `c` appears somewhere on `b`.
pub open spec fn letter_present(b: Seq<Seq<u8>>, c: u8) -> bool {
    exists|p: (int, int)| in_bounds(b.len() as int, p) && letter_at(b, p) == c
}

/// Every letter of `word` appears somewhere on `b`.
pub open spec fn letters_on_board(b: Seq<Seq<u8>>, word: Seq<u8>) -> bool {
    forall|i: int| 0 <= i < word.len() ==> letter_present(b, #[trigger] word[i])
}

/// `path` spells `word` over `b`: one cell per letter, each cell in
/// bounds and holding its letter, consecutive cells adjacent. Cells may
/// repeat.
pub open spec fn spells(b: Seq<Seq<u8>>, word: Seq<u8>, path: Seq<(int, int)>) -> bool {
    &&& path.len() == word.len()
    &&& forall|i: int| 0 <= i < path.len() ==> in_bounds(b.len() as int, #[trigger] path[i])
    &&& forall|i: int| 0 <= i < path.len() ==> letter_at(b, #[trigger] path[i]) == word[i]
    &&& forall|i: int| 0 <= i < path.len() - 1 ==> adjacent(#[trigger] path[i], path[i + 1])
}

/// `path` spells `word` without using any cell twice.
pub open spec fn is_simple_path(b: Seq<Seq<u8>>, word: Seq<u8>, path: Seq<(int, int)>) -> bool {
    spells(b, word, path) && path.no_duplicates()
}

/// Some simple path spells `word`: the word is on the board.
pub open spec fn found_on_board(b: Seq<Seq<u8>>, word: Seq<u8>) -> bool {
    word.len() > 0 && exists|path: Seq<(int, int)>| is_simple_path(b, word, path)
}

/// Some chain of adjacent cells — reuse allowed — spells `word`. This is
/// what the approximate filter decides: necessary for `found_on_board`,
/// not sufficient.
pub open spec fn chain_on_board(b: Seq<Seq<u8>>, word: Seq<u8>) -> bool {
    word.len() > 0 && exists|path: Seq<(int, int)>| spells(b, word, path)
}

/// Some chain spelling the first `k + 1` letters of `word` ends at `p`.
pub open spec fn chain_to(b: Seq<Seq<u8>>, word: Seq<u8>, k: int, p: (int, int)) -> bool {
    exists|path: Seq<(int, int)>| spells(b, word.take(k + 1), path) && path[k] == p
}

/// One step of the chain relation: a chain ends at `p` exactly when `p`
/// holds the right letter and, past the first letter, some neighbour ends
/// a chain one letter shorter.
pub proof fn lemma_chain_unfold(b: Seq<Seq<u8>>, word: Seq<u8>, k: int, p: (int, int))
    requires
        0 <= k < word.len(),
    ensures
        chain_to(b, word, k, p) <==> (in_bounds(b.len() as int, p) && letter_at(b, p) == word[k]
            && (k == 0 || exists|q: (int, int)| adjacent(q, p) && chain_to(b, word, k - 1, q))),
{
    let wk = word.take(k + 1);
    if chain_to(b, word, k, p) {
        let path = choose|path: Seq<(int, int)>| spells(b, wk, path) && path[k] == p;
        assert(in_bounds(b.len() as int, path[k]));
        assert(letter_at(b, p) == wk[k]);
        if k > 0 {
            let prev = path.take(k);
            assert(spells(b, word.take(k), prev)) by {
                assert(word.take(k) =~= wk.take(k));
                assert forall|i: int| 0 <= i < prev.len() implies in_bounds(
                    b.len() as int,
                    #[trigger] prev[i],
                ) && letter_at(b, prev[i]) == word.take(k)[i] by {
                    assert(prev[i] == path[i]);
                }
                assert forall|i: int| 0 <= i < prev.len() - 1 implies adjacent(
                    #[trigger] prev[i],
                    prev[i + 1],
                ) by {
                    assert(prev[i] == path[i] && prev[i + 1] == path[i + 1]);
                }
            }
            assert(prev[k - 1] == path[k - 1]);
            assert(chain_to(b, word, k - 1, path[k - 1]));
            assert(adjacent(path[k - 1], p));
        }
    }
    if in_bounds(b.len() as int, p) && letter_at(b, p) == word[k] {
        if k == 0 {
            let path = seq![p];
            assert(spells(b, wk, path)) by {
                assert(wk.len() == 1);
                assert(path[0] == p);
                assert(wk[0] == word[0]);
            }
            assert(chain_to(b, word, 0, p));
        } else if exists|q: (int, int)| adjacent(q, p) && chain_to(b, word, k - 1, q) {
            let q = choose|q: (int, int)| adjacent(q, p) && chain_to(b, word, k - 1, q);
            let prev = choose|path: Seq<(int, int)>|
                spells(b, word.take(k), path) && path[k - 1] == q;
            let path = prev.push(p);
            assert(spells(b, wk, path)) by {
                assert forall|i: int| 0 <= i < path.len() implies in_bounds(
                    b.len() as int,
                    #[trigger] path[i],
                ) && letter_at(b, path[i]) == wk[i] by {
                    if i < k {
                        assert(path[i] == prev[i]);
                        assert(word.take(k)[i] == wk[i]);
                    } else {
                        assert(path[i] == p);
                    }
                }
                assert forall|i: int| 0 <= i < path.len() - 1 implies adjacent(
                    #[trigger] path[i],
                    path[i + 1],
                ) by {
                    if i < k - 1 {
                        assert(path[i] == prev[i] && path[i + 1] == prev[i + 1]);
                    } else {
                        assert(path[i] == prev[k - 1] && path[i + 1] == p);
                        assert(adjacent(q, p));
                    }
                }
            }
            assert(path[k] == p);
        }
    }
}

/// A chain for the whole word is a chain to its last letter.
pub proof fn lemma_chain_last(b: Seq<Seq<u8>>, word: Seq<u8>, k: int)
    requires
        word.len() > 0,
        k == word.len() - 1,
    ensures
        chain_on_board(b, word) <==> exists|p: (int, int)| chain_to(b, word, k, p),
{
    assert(word.take(k + 1) =~= word);
    if chain_on_board(b, word) {
        let path = choose|path: Seq<(int, int)>| spells(b, word, path);
        assert(spells(b, word.take(k + 1), path) && path[k] == path[k]);
        assert(chain_to(b, word, k, path[k]));
    }
    if exists|p: (int, int)| chain_to(b, word, k, p) {
        let p = choose|p: (int, int)| chain_to(b, word, k, p);
        let path = choose|path: Seq<(int, int)>| spells(b, word.take(k + 1), path) && path[k] == p;
        assert(spells(b, word, path));
    }
}

/// No cell of `path` belongs to `used`.
pub open spec fn avoids(path: Seq<(int, int)>, used: Set<(int, int)>) -> bool {
    forall|i: int| 0 <= i < path.len() ==> !used.contains(#[trigger] path[i])
}

/// Some simple path spells `word` from its `k`-th letter on, starting at
/// `p` and keeping clear of the cells in `used`.
pub open spec fn ext_exists(
    b: Seq<Seq<u8>>,
    word: Seq<u8>,
    k: int,
    p: (int, int),
    used: Set<(int, int)>,
) -> bool {
    exists|path: Seq<(int, int)>|
        is_simple_path(b, word.skip(k), path) && path.len() > 0 && path[0] == p && avoids(
            path,
            used,
        )
}

/// The cells an `n`×`n` visited mask has marked.
pub open spec fn mask_cells(v: Vec2, n: int) -> Set<(int, int)> {
    Set::new(|p: (int, int)| in_bounds(n, p) && v.spec_get(p.0, p.1))
}

/// A last letter in place is an extension by itself.
proof fn lemma_ext_single(
    b: Seq<Seq<u8>>,
    word: Seq<u8>,
    k: int,
    p: (int, int),
    used: Set<(int, int)>,
)
    requires
        0 <= k == word.len() - 1,
        in_bounds(b.len() as int, p),
        letter_at(b, p) == word[k],
        !used.contains(p),
    ensures
        ext_exists(b, word, k, p, used),
{
    let suffix = word.skip(k);
    let path = seq![p];
    assert(suffix.len() == 1);
    assert(suffix[0] == word[k]);
    assert(path[0] == p);
    assert(is_simple_path(b, suffix, path));
    assert(avoids(path, used));
}

/// An extension from an unvisited neighbour, one letter further on, makes
/// an extension from `p`.
proof fn lemma_ext_cons(
    b: Seq<Seq<u8>>,
    word: Seq<u8>,
    k: int,
    p: (int, int),
    q: (int, int),
    used0: Set<(int, int)>,
    used1: Set<(int, int)>,
)
    requires
        0 <= k < word.len() - 1,
        in_bounds(b.len() as int, p),
        letter_at(b, p) == word[k],
        !used0.contains(p),
        used1 == used0.insert(p),
        adjacent(q, p),
        ext_exists(b, word, k + 1, q, used1),
    ensures
        ext_exists(b, word, k, p, used0),
{
    let suffix = word.skip(k);
    let path2 = choose|path2: Seq<(int, int)>|
        is_simple_path(b, word.skip(k + 1), path2) && path2.len() > 0 && path2[0] == q && avoids(
            path2,
            used1,
        );
    let path = seq![p] + path2;
    assert(path.len() == suffix.len());
    assert(path[0] == p);
    assert forall|i: int| 0 <= i < path.len() implies in_bounds(b.len() as int, #[trigger] path[i])
        && letter_at(b, path[i]) == suffix[i] && !used0.contains(path[i]) by {
        if i == 0 {
            assert(suffix[0] == word[k]);
        } else {
            assert(path[i] == path2[i - 1]);
            assert(word.skip(k + 1)[i - 1] == suffix[i]);
            assert(!used1.contains(path2[i - 1]));
        }
    }
    assert forall|i: int| 0 <= i < path.len() - 1 implies adjacent(
        #[trigger] path[i],
        path[i + 1],
    ) by {
        if i == 0 {
            assert(path[1] == path2[0]);
            assert(path2[0] == q);
        } else {
            assert(path[i] == path2[i - 1] && path[i + 1] == path2[i]);
        }
    }
    assert(path.no_duplicates()) by {
        assert forall|i: int, j: int| 0 <= i < j < path.len() implies path[i] != path[j] by {
            if i == 0 {
                assert(path[j] == path2[j - 1]);
                assert(!used1.contains(path2[j - 1]));
                assert(used1.contains(p));
            } else {
                assert(path[i] == path2[i - 1] && path[j] == path2[j - 1]);
            }
        }
    }
    assert(is_simple_path(b, suffix, path) && path.len() > 0 && path[0] == p && avoids(
        path,
        used0,
    ));
}

/// An extension from `p` that is not the last letter passes through an
/// unvisited neighbour with the next letter.
proof fn lemma_ext_step(
    b: Seq<Seq<u8>>,
    word: Seq<u8>,
    k: int,
    p: (int, int),
    used0: Set<(int, int)>,
    used1: Set<(int, int)>,
) -> (q: (int, int))
    requires
        0 <= k < word.len() - 1,
        used1 == used0.insert(p),
        ext_exists(b, word, k, p, used0),
    ensures
        adjacent(p, q),
        in_bounds(b.len() as int, q),
        letter_at(b, q) == word[k + 1],
        !used1.contains(q),
        ext_exists(b, word, k + 1, q, used1),
{
    let suffix = word.skip(k);
    let path = choose|path: Seq<(int, int)>|
        is_simple_path(b, suffix, path) && path.len() > 0 && path[0] == p && avoids(path, used0);
    assert(path.len() == suffix.len() >= 2);
    let q = path[1];
    assert(adjacent(path[0], path[1]));
    assert(in_bounds(b.len() as int, q));
    assert(letter_at(b, q) == suffix[1]);
    assert(suffix[1] == word[k + 1]);
    assert(!used1.contains(q)) by {
        assert(!used0.contains(path[1]));
        assert(path[0] != path[1]);
    }
    let path2 = path.skip(1);
    assert(path2.len() > 0);
    assert(path2[0] == q);
    assert forall|i: int| 0 <= i < path2.len() implies in_bounds(
        b.len() as int,
        #[trigger] path2[i],
    ) && letter_at(b, path2[i]) == word.skip(k + 1)[i] && !used1.contains(path2[i]) by {
        assert(path2[i] == path[i + 1]);
        assert(suffix[i + 1] == word.skip(k + 1)[i]);
        assert(!used0.contains(path[i + 1]));
        assert(path[0] != path[i + 1]);
    }
    assert forall|i: int| 0 <= i < path2.len() - 1 implies adjacent(
        #[trigger] path2[i],
        path2[i + 1],
    ) by {
        assert(path2[i] == path[i + 1] && path2[i + 1] == path[i + 2]);
    }
    assert(path2.no_duplicates()) by {
        assert forall|i: int, j: int| 0 <= i < j < path2.len() implies path2[i] != path2[j] by {
            assert(path2[i] == path[i + 1] && path2[j] == path[j + 1]);
        }
    }
    assert(path2.len() == word.skip(k + 1).len());
    assert(is_simple_path(b, word.skip(k + 1), path2) && path2.len() > 0 && path2[0] == q && avoids(
        path2,
        used1,
    ));
    assert(adjacent(p, q)) by {
        assert(adjacent(path[0], path[1]));
    }
    q
}

/// The approximate filter is a superset test: a word the exact search
/// finds is one the chain filter admits — the filter has no false
/// negatives.
pub proof fn lemma_found_implies_chain(b: Seq<Seq<u8>>, word: Seq<u8>)
    ensures
        found_on_board(b, word) ==> chain_on_board(b, word),
{
    if found_on_board(b, word) {
        let path = choose|path: Seq<(int, int)>| is_simple_path(b, word, path);
        assert(spells(b, word, path));
    }
}

/// A word the exact search finds uses only letters the board holds.
pub proof fn lemma_found_implies_letters(b: Seq<Seq<u8>>, word: Seq<u8>)
    ensures
        found_on_board(b, word) ==> letters_on_board(b, word),
{
    if found_on_board(b, word) {
        let path = choose|path: Seq<(int, int)>| is_simple_path(b, word, path);
        assert forall|i: int| 0 <= i < word.len() implies letter_present(
            b,
            #[trigger] word[i],
        ) by {
            assert(in_bounds(b.len() as int, path[i]) && letter_at(b, path[i]) == word[i]);
        }
    }
}

/// A dictionary line both solvers report: at least four letters, and
/// spelled by some simple path on the board.
pub open spec fn word_qualifies(b: Seq<Seq<u8>>, word: Seq<u8>) -> bool {
    word.len() >= 4 && found_on_board(b, word)
}

/// The qualifying lines of the dictionary text, in dictionary order.
pub open spec fn found_lines(b: Seq<Seq<u8>>, dict: Seq<u8>) -> Seq<Seq<u8>> {
    lines_of(dict).filter(|w: Seq<u8>| word_qualifies(b, w))
}

/// Some simple path spells `s`, starts next to `p`, and keeps clear of
/// the cells in `used`.
pub open spec fn cont_exists(
    b: Seq<Seq<u8>>,
    s: Seq<u8>,
    p: (int, int),
    used: Set<(int, int)>,
) -> bool {
    exists|q: Seq<(int, int)>|
        is_simple_path(b, s, q) && q.len() > 0 && adjacent(p, q[0]) && avoids(q, used)
}

/// The words the trie-guided search can still collect standing on cell
/// `p` at trie node `t`, with the cells in `used` consumed and `p` about
/// to be: every word of the subtree below `t` whose remaining letters
/// some simple continuation path spells.
pub open spec fn reach_wit(
    b: Seq<Seq<u8>>,
    nodes: Seq<crate::trie::TrieNode>,
    t: int,
    p: (int, int),
    used: Set<(int, int)>,
    w: Seq<u8>,
    s: Seq<u8>,
) -> bool {
    &&& w == nodes[t].word@ + s
    &&& match node_at(nodes, t, s) {
        Some(m) => nodes[m].word_end,
        None => false,
    }
    &&& s.len() == 0 || cont_exists(b, s, p, used.insert(p))
}

pub open spec fn reach_has(
    b: Seq<Seq<u8>>,
    nodes: Seq<crate::trie::TrieNode>,
    t: int,
    p: (int, int),
    used: Set<(int, int)>,
    w: Seq<u8>,
) -> bool {
    exists|s: Seq<u8>| #[trigger] reach_wit(b, nodes, t, p, used, w, s)
}

pub open spec fn reach_words(
    b: Seq<Seq<u8>>,
    nodes: Seq<crate::trie::TrieNode>,
    t: int,
    p: (int, int),
    used: Set<(int, int)>,
) -> Set<Seq<u8>> {
    Set::new(|w: Seq<u8>| reach_has(b, nodes, t, p, used, w))
}

/// Membership in the collectible set, one step at a time: a word is
/// collectible exactly when this node ends it, or some unconsumed
/// neighbour with a child edge leads on to it.
pub proof fn lemma_reach_unfold(
    b: Seq<Seq<u8>>,
    nodes: Seq<crate::trie::TrieNode>,
    t: int,
    p: (int, int),
    used: Set<(int, int)>,
    w: Seq<u8>,
)
    requires
        crate::trie::trie_wf(nodes),
        0 <= t < nodes.len(),
        board_wf(b),
        in_bounds(b.len() as int, p),
    ensures
        reach_words(b, nodes, t, p, used).contains(w) <==> ((nodes[t].word_end && w
            == nodes[t].word@) || exists|q: (int, int), ch: int|
            adjacent(p, q) && in_bounds(b.len() as int, q) && !used.insert(p).contains(q)
                && child_of(nodes, t, letter_at(b, q)) == Some(ch as usize) && 0 <= ch
                < nodes.len() && #[trigger] reach_words(b, nodes, ch, q, used.insert(p)).contains(
                w,
            )),
{
    let n = b.len() as int;
    let used1 = used.insert(p);
    assert(reach_words(b, nodes, t, p, used).contains(w) == reach_has(b, nodes, t, p, used, w));
    assert forall|q: (int, int), ch: int| true implies #[trigger] reach_words(
        b,
        nodes,
        ch,
        q,
        used1,
    ).contains(w) == reach_has(b, nodes, ch, q, used1, w) by {}
    if reach_has(b, nodes, t, p, used, w) {
        let s = choose|s: Seq<u8>| #[trigger] reach_wit(b, nodes, t, p, used, w, s);
        assert(reach_wit(b, nodes, t, p, used, w, s));
        if s.len() == 0 {
            assert(w =~= nodes[t].word@);
        } else {
            let q = choose|q: Seq<(int, int)>|
                is_simple_path(b, s, q) && q.len() > 0 && adjacent(p, q[0]) && avoids(q, used1);
            let q0 = q[0];
            let c = s[0];
            assert(letter_at(b, q0) == c);
            let ch = match node_at(nodes, t, s) {
                Some(_) => nodes[t].children@[c - LETTER_A]->Some_0 as int,
                None => 0,
            };
            assert(nodes[t].children@[c - LETTER_A] == Some(ch as usize));
            assert(child_of(nodes, t, letter_at(b, q0)) == Some(ch as usize));
            assert(t < ch < nodes.len());
            assert(reach_has(b, nodes, ch, q0, used1, w)) by {
                let s2 = s.skip(1);
                assert(used1.insert(q0) == used.insert(p).insert(q0));
                assert(node_at(nodes, ch, s2) == node_at(nodes, t, s));
                assert(w == nodes[ch].word@ + s2) by {
                    assert(nodes[ch].word@ == nodes[t].word@ + seq![((c - LETTER_A)
                        + LETTER_A) as u8]);
                    assert(seq![((c - LETTER_A) + LETTER_A) as u8] =~= seq![c]);
                    assert(nodes[t].word@ + s =~= (nodes[t].word@ + seq![c]) + s.skip(1));
                }
                if s2.len() > 0 {
                    assert(cont_exists(b, s2, q0, used1.insert(q0))) by {
                        let q2 = q.skip(1);
                        assert(q2.len() > 0);
                        assert(q2[0] == q[1]);
                        assert(adjacent(q[0], q[1]));
                        assert(is_simple_path(b, s2, q2) && avoids(q2, used1.insert(q0))) by {
                            assert(q2.len() == s2.len());
                            assert forall|i: int| 0 <= i < q2.len() implies in_bounds(
                                n,
                                #[trigger] q2[i],
                            ) && letter_at(b, q2[i]) == s2[i] && !used1.insert(q0).contains(
                                q2[i],
                            ) by {
                                assert(q2[i] == q[i + 1]);
                                assert(s2[i] == s[i + 1]);
                                assert(!used1.contains(q[i + 1]));
                                assert(q[0] != q[i + 1]);
                            }
                            assert forall|i: int| 0 <= i < q2.len() - 1 implies adjacent(
                                #[trigger] q2[i],
                                q2[i + 1],
                            ) by {
                                assert(q2[i] == q[i + 1] && q2[i + 1] == q[i + 2]);
                            }
                            assert(q2.no_duplicates()) by {
                                assert forall|i: int, j: int|
                                    0 <= i < j < q2.len() implies q2[i] != q2[j] by {
                                    assert(q2[i] == q[i + 1] && q2[j] == q[j + 1]);
                                }
                            }
                        }
                    }
                }
                assert(reach_wit(b, nodes, ch, q0, used1, w, s2));
            }
            assert(in_bounds(n, q0) && adjacent(p, q0) && !used1.contains(q0));
            assert(reach_words(b, nodes, ch, q0, used1).contains(w));
        }
    }
    if nodes[t].word_end && w == nodes[t].word@ {
        let s = Seq::<u8>::empty();
        assert(w == nodes[t].word@ + s) by {
            assert(nodes[t].word@ + s =~= nodes[t].word@);
        }
        assert(node_at(nodes, t, s) == Some(t));
        assert(reach_wit(b, nodes, t, p, used, w, s));
        assert(reach_has(b, nodes, t, p, used, w));
    }
    if exists|q: (int, int), ch: int|
        adjacent(p, q) && in_bounds(n, q) && !used1.contains(q) && child_of(
            nodes,
            t,
            letter_at(b, q),
        ) == Some(ch as usize) && 0 <= ch < nodes.len() && #[trigger] reach_words(
        b,
        nodes,
        ch,
        q,
        used1,
    ).contains(w) {
        let (q0, ch) = choose|q: (int, int), ch: int|
            adjacent(p, q) && in_bounds(n, q) && !used1.contains(q) && child_of(
                nodes,
                t,
                letter_at(b, q),
            ) == Some(ch as usize) && 0 <= ch < nodes.len() && #[trigger] reach_words(
                b,
                nodes,
                ch,
                q,
                used1,
            ).contains(w);
        assert(reach_has(b, nodes, ch, q0, used1, w));
        let c = letter_at(b, q0);
        assert(LETTER_A <= c <= LETTER_Z) by {
            assert(all_lowercase(b[q0.0]));
        }
        let s2 = choose|s2: Seq<u8>| #[trigger] reach_wit(b, nodes, ch, q0, used1, w, s2);
        assert(reach_wit(b, nodes, ch, q0, used1, w, s2));
        assert(used1.insert(q0) == used.insert(p).insert(q0));
        let s = seq![c] + s2;
        assert(s[0] == c);
        assert(s.skip(1) =~= s2);
        assert(w == nodes[t].word@ + s) by {
            assert(nodes[ch].word@ == nodes[t].word@ + seq![((c - LETTER_A) + LETTER_A) as u8]);
            assert(seq![((c - LETTER_A) + LETTER_A) as u8] =~= seq![c]);
            assert((nodes[t].word@ + seq![c]) + s2 =~= nodes[t].word@ + (seq![c] + s2));
        }
        assert(node_at(nodes, t, s) == node_at(nodes, ch, s2)) by {
            assert(nodes[t].children@[c - LETTER_A] == Some(ch as usize));
        }
        assert(cont_exists(b, s, p, used1)) by {
            if s2.len() == 0 {
                let q = seq![q0];
                assert(q[0] == q0);
                assert(is_simple_path(b, s, q)) by {
                    assert(s.len() == 1);
                    assert(letter_at(b, q[0]) == s[0]);
                }
                assert(avoids(q, used1));
            } else {
                let q2 = choose|q2: Seq<(int, int)>|
                    is_simple_path(b, s2, q2) && q2.len() > 0 && adjacent(q0, q2[0]) && avoids(
                        q2,
                        used1.insert(q0),
                    );
                let q = seq![q0] + q2;
                assert(q[0] == q0);
                assert(is_simple_path(b, s, q) && avoids(q, used1)) by {
                    assert(q.len() == s.len());
                    assert forall|i: int| 0 <= i < q.len() implies in_bounds(n, #[trigger] q[i])
                        && letter_at(b, q[i]) == s[i] && !used1.contains(q[i]) by {
                        if i > 0 {
                            assert(q[i] == q2[i - 1]);
                            assert(s[i] == s2[i - 1]);
                            assert(!used1.insert(q0).contains(q2[i - 1]));
                        }
                    }
                    assert forall|i: int| 0 <= i < q.len() - 1 implies adjacent(
                        #[trigger] q[i],
                        q[i + 1],
                    ) by {
                        if i == 0 {
                            assert(q[1] == q2[0]);
                            assert(adjacent(q0, q2[0]));
                        } else {
                            assert(q[i] == q2[i - 1] && q[i + 1] == q2[i]);
                        }
                    }
                    assert(q.no_duplicates()) by {
                        assert forall|i: int, j: int|
                            0 <= i < j < q.len() implies q[i] != q[j] by {
                            if i == 0 {
                                assert(q[j] == q2[j - 1]);
                                assert(!used1.insert(q0).contains(q2[j - 1]));
                            } else {
                                assert(q[i] == q2[i - 1] && q[j] == q2[j - 1]);
                            }
                        }
                    }
                }
            }
        }
        assert(reach_wit(b, nodes, t, p, used, w, s));
        assert(reach_has(b, nodes, t, p, used, w));
    }
}

/// The words a sequence of byte vectors holds, in order.
pub open spec fn outs(o: Seq<Vec<u8>>) -> Seq<Seq<u8>> {
    o.map_values(|v: Vec<u8>| v@)
}

/// The seen bitmap is honest: a terminal node is flagged exactly when its
/// word has been collected.
pub open spec fn seen_ok(
    nodes: Seq<crate::trie::TrieNode>,
    seen: Seq<bool>,
    collected: Seq<Seq<u8>>,
) -> bool {
    forall|m: int|
        0 <= m < nodes.len() && nodes[m].word_end ==> (#[trigger] seen[m] <==> collected.contains(
            nodes[m].word@,
        ))
}

/// What one starting cell contributes to the trie-guided search: the
/// words reached through the root's edge for that cell's letter, with an
/// empty visited mask.
pub open spec fn cell_has(
    b: Seq<Seq<u8>>,
    nodes: Seq<crate::trie::TrieNode>,
    ci: int,
    cj: int,
    w: Seq<u8>,
) -> bool {
    match child_of(nodes, 0, letter_at(b, (ci, cj))) {
        Some(ch) => reach_has(b, nodes, ch as int, (ci, cj), Set::empty(), w),
        None => false,
    }
}

/// A neighbour's contribution during the search: unconsumed, with a child
/// edge for its letter, leading on to `w`.
pub open spec fn nbr_reach(
    b: Seq<Seq<u8>>,
    nodes: Seq<crate::trie::TrieNode>,
    t: int,
    q: (int, int),
    used1: Set<(int, int)>,
    w: Seq<u8>,
) -> bool {
    !used1.contains(q) && (match child_of(nodes, t, letter_at(b, q)) {
        Some(ch) => reach_has(b, nodes, ch as int, q, used1, w),
        None => false,
    })
}

/// A word whose letters all appear on a well-formed board is lowercase.
proof fn lemma_letters_lowercase(b: Seq<Seq<u8>>, word: Seq<u8>)
    requires
        board_wf(b),
        letters_on_board(b, word),
    ensures
        all_lowercase(word),
{
    assert forall|i: int| 0 <= i < word.len() implies LETTER_A <= #[trigger] word[i]
        <= LETTER_Z by {
        assert(letter_present(b, word[i]));
        let p = choose|p: (int, int)|
            in_bounds(b.len() as int, p) && letter_at(b, p) == word[i];
        assert(all_lowercase(b[p.0]));
    }
}

/// What one cell contributes is sound: a word it yields is in the tree
/// and on the board.
proof fn lemma_cell_sound(
    b: Seq<Seq<u8>>,
    nodes: Seq<crate::trie::TrieNode>,
    ci: int,
    cj: int,
    w: Seq<u8>,
)
    requires
        trie_wf(nodes),
        board_wf(b),
        in_bounds(b.len() as int, (ci, cj)),
        cell_has(b, nodes, ci, cj, w),
    ensures
        trie_word(nodes, w),
        found_on_board(b, w),
{
    let n = b.len() as int;
    let cell = (ci, cj);
    let c = letter_at(b, cell);
    let ch = child_of(nodes, 0, c)->Some_0;
    assert(nodes[0].children@[c - LETTER_A] == Some(ch));
    assert(reach_has(b, nodes, ch as int, cell, Set::empty(), w));
    let s2 = choose|s2: Seq<u8>|
        #[trigger] reach_wit(b, nodes, ch as int, cell, Set::empty(), w, s2);
    assert(reach_wit(b, nodes, ch as int, cell, Set::empty(), w, s2));
    assert(nodes[ch as int].word@ == nodes[0].word@ + seq![((c - LETTER_A) + LETTER_A) as u8]);
    assert(nodes[ch as int].word@ =~= seq![c]);
    assert(w =~= seq![c] + s2);
    assert(w[0] == c);
    assert(w.skip(1) =~= s2);
    assert(trie_word(nodes, w)) by {
        assert(node_at(nodes, 0, w) == node_at(nodes, ch as int, s2));
    }
    if s2.len() == 0 {
        let path = seq![cell];
        assert(w.len() == 1);
        assert(path[0] == cell);
        assert(is_simple_path(b, w, path));
        assert(found_on_board(b, w));
    } else {
        let q2 = choose|q2: Seq<(int, int)>|
            is_simple_path(b, s2, q2) && q2.len() > 0 && adjacent(cell, q2[0]) && avoids(
                q2,
                Set::empty().insert(cell),
            );
        let path = seq![cell] + q2;
        assert(is_simple_path(b, w, path)) by {
            assert(path.len() == w.len());
            assert(path[0] == cell);
            assert forall|i: int| 0 <= i < path.len() implies in_bounds(n, #[trigger] path[i])
                && letter_at(b, path[i]) == w[i] by {
                if i > 0 {
                    assert(path[i] == q2[i - 1]);
                    assert(s2[i - 1] == w[i]);
                }
            }
            assert forall|i: int| 0 <= i < path.len() - 1 implies adjacent(
                #[trigger] path[i],
                path[i + 1],
            ) by {
                if i == 0 {
                    assert(path[1] == q2[0]);
                } else {
                    assert(path[i] == q2[i - 1] && path[i + 1] == q2[i]);
                }
            }
            assert(path.no_duplicates()) by {
                assert forall|i: int, j: int| 0 <= i < j < path.len() implies path[i]
                    != path[j] by {
                    if i == 0 {
                        assert(path[j] == q2[j - 1]);
                        assert(!Set::empty().insert(cell).contains(q2[j - 1]));
                    } else {
                        assert(path[i] == q2[i - 1] && path[j] == q2[j - 1]);
                    }
                }
            }
        }
        assert(found_on_board(b, w));
    }
}

/// Every word that is both in the tree and on the board is contributed by
/// the first cell of one of its paths.
proof fn lemma_cell_complete(b: Seq<Seq<u8>>, nodes: Seq<crate::trie::TrieNode>, w: Seq<u8>)
    requires
        trie_wf(nodes),
        board_wf(b),
        trie_word(nodes, w),
        found_on_board(b, w),
    ensures
        exists|ci: int, cj: int|
            in_bounds(b.len() as int, (ci, cj)) && #[trigger] cell_has(b, nodes, ci, cj, w),
{
    let n = b.len() as int;
    let pth = choose|pth: Seq<(int, int)>| is_simple_path(b, w, pth);
    let cell = pth[0];
    let ci = cell.0;
    let cj = cell.1;
    let c = w[0];
    assert(letter_at(b, cell) == c);
    assert(in_bounds(n, cell));
    assert(node_at(nodes, 0, w) is Some);
    let ch = nodes[0].children@[c - LETTER_A]->Some_0;
    assert(nodes[0].children@[c - LETTER_A] == Some(ch));
    assert(child_of(nodes, 0, c) == Some(ch));
    let s2 = w.skip(1);
    assert(cell_has(b, nodes, ci, cj, w)) by {
        assert(reach_wit(b, nodes, ch as int, cell, Set::empty(), w, s2)) by {
            assert(nodes[ch as int].word@ == nodes[0].word@ + seq![((c - LETTER_A)
                + LETTER_A) as u8]);
            assert(nodes[ch as int].word@ =~= seq![c]);
            assert(w =~= nodes[ch as int].word@ + s2);
            assert(node_at(nodes, ch as int, s2) == node_at(nodes, 0, w));
            if s2.len() > 0 {
                assert(cont_exists(b, s2, cell, Set::empty().insert(cell))) by {
                    let q2 = pth.skip(1);
                    assert(q2.len() > 0);
                    assert(q2[0] == pth[1]);
                    assert(adjacent(pth[0], pth[1]));
                    assert(is_simple_path(b, s2, q2) && avoids(q2, Set::empty().insert(cell)))
                        by {
                        assert(q2.len() == s2.len());
                        assert forall|i: int| 0 <= i < q2.len() implies in_bounds(
                            n,
                            #[trigger] q2[i],
                        ) && letter_at(b, q2[i]) == s2[i] && !Set::empty().insert(cell).contains(
                            q2[i],
                        ) by {
                            assert(q2[i] == pth[i + 1]);
                            assert(s2[i] == w[i + 1]);
                            assert(pth[0] != pth[i + 1]);
                        }
                        assert forall|i: int| 0 <= i < q2.len() - 1 implies adjacent(
                            #[trigger] q2[i],
                            q2[i + 1],
                        ) by {
                            assert(q2[i] == pth[i + 1] && q2[i + 1] == pth[i + 2]);
                        }
                        assert(q2.no_duplicates()) by {
                            assert forall|i: int, j: int|
                                0 <= i < j < q2.len() implies q2[i] != q2[j] by {
                                assert(q2[i] == pth[i + 1] && q2[j] == pth[j + 1]);
                            }
                        }
                    }
                }
            }
        }
        assert(reach_has(b, nodes, ch as int, cell, Set::empty(), w));
    }
}

/// Membership in the qualifying lines, spelled out: on the list, and
/// qualifying.
pub proof fn lemma_found_lines_set(b: Seq<Seq<u8>>, dict: Seq<u8>, w: Seq<u8>)
    ensures
        found_lines(b, dict).to_set().contains(w) <==> (lines_of(dict).contains(w)
            && word_qualifies(b, w)),
{
    let ls = lines_of(dict);
    let pred = |x: Seq<u8>| word_qualifies(b, x);
    if found_lines(b, dict).to_set().contains(w) {
        assert(ls.filter(pred).contains(w));
        let i = choose|i: int| 0 <= i < ls.filter(pred).len() && ls.filter(pred)[i] == w;
        Seq::lemma_filter_pred(ls, pred, i);
        ls.lemma_filter_contains_rev(pred, w);
    }
    if ls.contains(w) && pred(w) {
        let i = choose|i: int| 0 <= i < ls.len() && ls[i] == w;
        Seq::lemma_filter_contains(ls, pred, i);
        assert(ls.filter(pred).contains(w));
        assert(found_lines(b, dict).to_set().contains(w));
    }
}

/// One step of `filter` along a growing prefix.
proof fn lemma_filter_take_step<A>(s: Seq<A>, i: int, pred: spec_fn(A) -> bool)
    requires
        0 <= i < s.len(),
    ensures
        s.take(i + 1).filter(pred) == if pred(s[i]) {
            s.take(i).filter(pred).push(s[i])
        } else {
            s.take(i).filter(pred)
        },
{
    reveal(Seq::filter);
    assert(s.take(i + 1).drop_last() =~= s.take(i));
    assert(s.take(i + 1).last() == s[i]);
}

/// The two strategies agree: whenever the dictionary lists no qualifying
/// word twice, the filter-then-verify result and any duplicate-free list
/// with the trie-guided result's words have the same words and the same
/// count. The contracts of `solve_single_threaded` and `solve_trie` put
/// their results in exactly these shapes.
pub proof fn lemma_strategy_equivalence(
    b: Seq<Seq<u8>>,
    dict: Seq<u8>,
    single: Seq<Seq<u8>>,
    trie: Seq<Seq<u8>>,
)
    requires
        single == found_lines(b, dict),
        trie.no_duplicates(),
        trie.to_set() == found_lines(b, dict).to_set(),
        found_lines(b, dict).no_duplicates(),
    ensures
        single.to_set() == trie.to_set(),
        single.len() == trie.len(),
{
    trie.unique_seq_to_set();
    found_lines(b, dict).unique_seq_to_set();
}

/// Solving is idempotent: two runs of the filter-then-verify solver on
/// the same board and dictionary return the same list, and two runs of
/// the trie-guided solver return the same word set and the same count.
/// The requires are exactly what the two solvers' contracts ensure.
pub proof fn lemma_solve_idempotent(
    b: Seq<Seq<u8>>,
    dict: Seq<u8>,
    single1: Seq<Seq<u8>>,
    single2: Seq<Seq<u8>>,
    trie1: Seq<Seq<u8>>,
    trie2: Seq<Seq<u8>>,
)
    requires
        single1 == found_lines(b, dict),
        single2 == found_lines(b, dict),
        trie1.no_duplicates(),
        trie1.to_set() == found_lines(b, dict).to_set(),
        trie2.no_duplicates(),
        trie2.to_set() == found_lines(b, dict).to_set(),
    ensures
        single1 == single2,
        trie1.to_set() == trie2.to_set(),
        trie1.len() == trie2.len(),
{
    trie1.unique_seq_to_set();
    trie2.unique_seq_to_set();
}

/// The eight unit offsets, clockwise starting at east.
pub open spec fn directions() -> Seq<(int, int)> {
    seq![(1, 0), (1, 1), (0, 1), (-1, 1), (-1, 0), (-1, -1), (0, -1), (1, -1)]
}

/// The in-bounds neighbours of `(x, y)` reached by the first `k`
/// directions, in direction order.
pub open spec fn neighbor_prefix(n: int, x: int, y: int, k: int) -> Seq<(usize, usize)>
    decreases k,
{
    if k <= 0 {
        Seq::empty()
    } else {
        let d = directions()[k - 1];
        let q = (x + d.0, y + d.1);
        if in_bounds(n, q) {
            neighbor_prefix(n, x, y, k - 1).push((q.0 as usize, q.1 as usize))
        } else {
            neighbor_prefix(n, x, y, k - 1)
        }
    }
}

/// All in-bounds neighbours of `(x, y)`, in direction order.
pub open spec fn neighbors_of(n: int, x: int, y: int) -> Seq<(usize, usize)> {
    neighbor_prefix(n, x, y, 8)
}

/// `neighbors_of` holds exactly the in-bounds cells adjacent to `(x, y)`.
pub proof fn lemma_neighbors_complete(n: int, x: int, y: int, q: (usize, usize))
    requires
        in_bounds(n, (x, y)),
        n <= usize::MAX,
    ensures
        neighbors_of(n, x, y).contains(q) <==> (in_bounds(n, (q.0 as int, q.1 as int)) && adjacent(
            (x, y),
            (q.0 as int, q.1 as int),
        )),
{
    let qi = (q.0 as int, q.1 as int);
    if neighbors_of(n, x, y).contains(q) {
        lemma_neighbor_prefix_sound(n, x, y, 8, q);
    }
    if in_bounds(n, qi) && adjacent((x, y), qi) {
        let d = (qi.0 - x, qi.1 - y);
        assert(directions().contains(d)) by {
            if d == (1int, 0int) {
                assert(directions()[0] == (1int, 0int));
            } else if d == (1int, 1int) {
                assert(directions()[1] == (1int, 1int));
            } else if d == (0int, 1int) {
                assert(directions()[2] == (0int, 1int));
            } else if d == (-1int, 1int) {
                assert(directions()[3] == (-1int, 1int));
            } else if d == (-1int, 0int) {
                assert(directions()[4] == (-1int, 0int));
            } else if d == (-1int, -1int) {
                assert(directions()[5] == (-1int, -1int));
            } else if d == (0int, -1int) {
                assert(directions()[6] == (0int, -1int));
            } else {
                assert(d == (1int, -1int));
                assert(directions()[7] == (1int, -1int));
            }
        }
        let k = choose|k: int| 0 <= k < 8 && directions()[k] == d;
        lemma_neighbor_prefix_has(n, x, y, k + 1, 8, q);
    }
}

/// Each of the eight directions is a unit offset other than `(0, 0)`.
proof fn lemma_direction_ok(k: int)
    requires
        0 <= k < 8,
    ensures
        directions()[k] != (0int, 0int),
        -1 <= directions()[k].0 <= 1,
        -1 <= directions()[k].1 <= 1,
{
    if k == 0 {
        assert(directions()[0] == (1int, 0int));
    } else if k == 1 {
        assert(directions()[1] == (1int, 1int));
    } else if k == 2 {
        assert(directions()[2] == (0int, 1int));
    } else if k == 3 {
        assert(directions()[3] == (-1int, 1int));
    } else if k == 4 {
        assert(directions()[4] == (-1int, 0int));
    } else if k == 5 {
        assert(directions()[5] == (-1int, -1int));
    } else if k == 6 {
        assert(directions()[6] == (0int, -1int));
    } else {
        assert(directions()[7] == (1int, -1int));
    }
}

/// Every element of a neighbour prefix is an in-bounds adjacent cell.
proof fn lemma_neighbor_prefix_sound(n: int, x: int, y: int, k: int, q: (usize, usize))
    requires
        0 <= k <= 8,
        n <= usize::MAX,
        neighbor_prefix(n, x, y, k).contains(q),
    ensures
        in_bounds(n, (q.0 as int, q.1 as int)),
        adjacent((x, y), (q.0 as int, q.1 as int)),
    decreases k,
{
    let prev = neighbor_prefix(n, x, y, k - 1);
    if k > 0 && !prev.contains(q) {
        let d = directions()[k - 1];
        lemma_direction_ok(k - 1);
        let p = (x + d.0, y + d.1);
        assert(in_bounds(n, p) && q == ((p.0 as usize, p.1 as usize)));
        assert(q.0 as int == p.0 && q.1 as int == p.1);
    } else {
        lemma_neighbor_prefix_sound(n, x, y, k - 1, q);
    }
}

/// A cell reached by direction `k - 1` stays in every longer prefix.
proof fn lemma_neighbor_prefix_has(n: int, x: int, y: int, k: int, m: int, q: (usize, usize))
    requires
        1 <= k <= m <= 8,
        in_bounds(n, (q.0 as int, q.1 as int)),
        q.0 as int == x + directions()[k - 1].0,
        q.1 as int == y + directions()[k - 1].1,
    ensures
        neighbor_prefix(n, x, y, m).contains(q),
    decreases m,
{
    let d = directions()[k - 1];
    let p = (x + d.0, y + d.1);
    assert(p == (q.0 as int, q.1 as int));
    assert((p.0 as usize, p.1 as usize) == q);
    if m == k {
        let prev = neighbor_prefix(n, x, y, k - 1);
        assert(neighbor_prefix(n, x, y, m) == prev.push(q));
        assert(prev.push(q)[prev.len() as int] == q);
    } else {
        lemma_neighbor_prefix_has(n, x, y, k, m - 1, q);
        let prev = neighbor_prefix(n, x, y, m - 1);
        let dm = directions()[m - 1];
        let pm = (x + dm.0, y + dm.1);
        if in_bounds(n, pm) {
            let i = choose|i: int| 0 <= i < prev.len() && prev[i] == q;
            assert(prev.push((pm.0 as usize, pm.1 as usize))[i] == q);
        }
    }
}

/// A grid side whose square fits the machine word fits a signed word.
proof fn lemma_side_fits(n: int)
    requires
        0 <= n,
        n * n <= usize::MAX,
    ensures
        n <= isize::MAX,
{
    if n >= 2 {
        assert(2 * n <= n * n) by (nonlinear_arith)
            requires
                n >= 2,
        ;
    }
}

impl View for Board {
    type V = Seq<Seq<u8>>;

    closed spec fn view(&self) -> Seq<Seq<u8>> {
        self.board@.map_values(|r: Vec<u8>| r@)
    }
}

/// The lines of `s` form a well-formed board.
pub open spec fn valid_board_text(s: Seq<u8>) -> bool {
    board_wf(lines_of(s))
}

impl Board {
    /// Builds the grid from its text, one row per line. The text must hold
    /// at least 3 rows, each row exactly as many lowercase letters as there
    /// are rows; anything else is refused with a board-size error.
    pub fn parse(raw: &str) -> (r: Result<Board, Error>)
        ensures
            r is Ok <==> valid_board_text(raw.spec_bytes()),
            r matches Ok(b) ==> b.wf() && b@ == lines_of(raw.spec_bytes()),
            r matches Err(e) ==> e is BoardSize,
    {
        let bytes = raw.as_bytes();
        let rows = split_lines(bytes);
        let ghost b = lines_of(raw.spec_bytes());
        let n = rows.len();
        if n < 3 {
            return Err(Error::BoardSize("the board must have at least 3 rows"));
        }
        let sq = n.checked_mul(n);
        if sq.is_none() || sq.unwrap() > (isize::MAX as usize) {
            return Err(Error::BoardSize("the board is too large"));
        }
        let mut i: usize = 0;
        while i < n
            invariant
                b == lines_of(raw.spec_bytes()),
                3 <= n == rows@.len(),
                rows@.map_values(|v: Vec<u8>| v@) == b,
                i <= n,
                forall|k: int| 0 <= k < i ==> (#[trigger] b[k]).len() == n,
                forall|k: int| 0 <= k < i ==> all_lowercase(#[trigger] b[k]),
            decreases n - i,
        {
            proof {
                assert(b[i as int] == rows@[i as int]@);
            }
            let row = &rows[i];
            if row.len() != n {
                proof {
                    assert(b[i as int].len() != b.len());
                }
                return Err(Error::BoardSize("unequal row and column sizes"));
            }
            let mut j: usize = 0;
            while j < n
                invariant
                    b == lines_of(raw.spec_bytes()),
                    3 <= n == rows@.len(),
                    rows@.map_values(|v: Vec<u8>| v@) == b,
                    i < n,
                    j <= n,
                    row == &rows[i as int],
                    row@.len() == n,
                    b[i as int] == row@,
                    forall|m: int| 0 <= m < j ==> LETTER_A <= #[trigger] row@[m] <= LETTER_Z,
                decreases n - j,
            {
                let c = row[j];
                if c < LETTER_A || c > LETTER_Z {
                    proof {
                        assert(b[i as int][j as int] == c);
                        assert(!all_lowercase(b[i as int]));
                    }
                    return Err(Error::BoardSize("the board must be ascii lowercase letters"));
                }
                j = j + 1;
            }
            i = i + 1;
        }
        assert(board_wf(b));
        let letters = Board::collect_letters(&rows);
        let board = Board { board: rows, letters };
        proof {
            assert(board@ == b);
        }
        Ok(board)
    }

    /// Which of the 26 letters appear among the rows.
    fn collect_letters(rows: &Vec<Vec<u8>>) -> (letters: Vec<bool>)
        requires
            board_wf(rows@.map_values(|v: Vec<u8>| v@)),
        ensures
            letters@.len() == 26,
            forall|l: int|
                0 <= l < 26 ==> (#[trigger] letters@[l] <==> letter_present(
                    rows@.map_values(|v: Vec<u8>| v@),
                    (LETTER_A + l) as u8,
                )),
    {
        let ghost b = rows@.map_values(|v: Vec<u8>| v@);
        let n = rows.len();
        let mut letters: Vec<bool> = Vec::new();
        let mut l: usize = 0;
        while l < 26
            invariant
                l <= 26,
                letters@.len() == l,
                forall|m: int| 0 <= m < l ==> !letters@[m],
            decreases 26 - l,
        {
            letters.push(false);
            l = l + 1;
        }
        let mut i: usize = 0;
        while i < n
            invariant
                n == rows@.len(),
                b == rows@.map_values(|v: Vec<u8>| v@),
                board_wf(b),
                i <= n,
                letters@.len() == 26,
                forall|m: int|
                    0 <= m < 26 ==> (#[trigger] letters@[m] <==> exists|p: (int, int)|
                        in_bounds(b.len() as int, p) && p.0 < i && letter_at(b, p) == (LETTER_A
                            + m) as u8),
            decreases n - i,
        {
            proof {
                assert(b[i as int] == rows@[i as int]@);
            }
            let row = &rows[i];
            let mut j: usize = 0;
            while j < n
                invariant
                    n == rows@.len(),
                    b == rows@.map_values(|v: Vec<u8>| v@),
                    board_wf(b),
                    i < n,
                    j <= n,
                    row == &rows[i as int],
                    b[i as int] == row@,
                    row@.len() == n,
                    letters@.len() == 26,
                    forall|m: int|
                        0 <= m < 26 ==> (#[trigger] letters@[m] <==> exists|p: (int, int)|
                            in_bounds(b.len() as int, p) && (p.0 < i || (p.0 == i && p.1 < j))
                                && letter_at(b, p) == (LETTER_A + m) as u8),
                decreases n - j,
            {
                let c = row[j];
                assert(all_lowercase(b[i as int]));
                let idx = (c - LETTER_A) as usize;
                let ghost old_letters = letters@;
                letters[idx] = true;
                proof {
                    assert(letters@ == old_letters.update(idx as int, true));
                    assert forall|m: int| 0 <= m < 26 implies (#[trigger] letters@[m]
                        <==> exists|p: (int, int)|
                        in_bounds(b.len() as int, p) && (p.0 < i || (p.0 == i && p.1 < j + 1))
                            && letter_at(b, p) == (LETTER_A + m) as u8) by {
                        if m == idx {
                            assert(in_bounds(b.len() as int, (i as int, j as int)));
                            assert(letter_at(b, (i as int, j as int)) == (LETTER_A + m) as u8);
                        } else {
                            assert(letters@[m] == old_letters[m]);
                        }
                    }
                }
                j = j + 1;
            }
            i = i + 1;
        }
        proof {
            assert forall|m: int| 0 <= m < 26 implies (#[trigger] letters@[m]
                <==> letter_present(b, (LETTER_A + m) as u8)) by {
            }
        }
        letters
    }

    /// The grid is well-formed and the letter record matches it.
    pub closed spec fn wf(self) -> bool {
        &&& board_wf(self@)
        &&& self.letters@.len() == 26
        &&& forall|l: int|
            0 <= l < 26 ==> (#[trigger] self.letters@[l] <==> letter_present(
                self@,
                (LETTER_A + l) as u8,
            ))
    }

    /// The side length of the square grid.
    pub fn len(&self) -> (r: usize)
        ensures
            r == self@.len(),
    {
        self.board.len()
    }

    /// The letter at `pos`, or `None` when `pos` lies outside the grid.
    /// Signed coordinates are accepted so that callers can probe before
    /// clamping.
    pub fn get(&self, pos: (isize, isize)) -> (r: Option<u8>)
        requires
            self.wf(),
        ensures
            r == if in_bounds(self@.len() as int, (pos.0 as int, pos.1 as int)) {
                Some(letter_at(self@, (pos.0 as int, pos.1 as int)))
            } else {
                None
            },
    {
        let (x, y) = pos;
        let n = self.board.len();
        if x < 0 || y < 0 {
            return None;
        }
        let xu = x as usize;
        let yu = y as usize;
        if xu >= n || yu >= n {
            return None;
        }
        proof {
            assert(self@[xu as int] == self.board@[xu as int]@);
        }
        Some(self.board[xu][yu])
    }

    /// The letter at the in-bounds cell `(i, j)`.
    fn at(&self, i: usize, j: usize) -> (r: u8)
        requires
            self.wf(),
            i < self@.len(),
            j < self@.len(),
        ensures
            r == letter_at(self@, (i as int, j as int)),
    {
        proof {
            assert(self@[i as int] == self.board@[i as int]@);
        }
        self.board[i][j]
    }

    /// Whether some neighbour of `pos` is marked at level `km` of the
    /// path-state table.
    fn level_reachable(&self, adj: &Vec3, km: usize, pos: (usize, usize)) -> (r: bool)
        requires
            self.wf(),
            adj.wf(),
            adj.spec_height() == self@.len(),
            adj.spec_depth() == self@.len(),
            km < adj.spec_width(),
            pos.0 < self@.len(),
            pos.1 < self@.len(),
        ensures
            r == exists|q: (int, int)|
                adjacent(q, (pos.0 as int, pos.1 as int)) && in_bounds(self@.len() as int, q)
                    && #[trigger] adj.spec_get(km as int, q.0, q.1),
    {
        let ghost n = self@.len() as int;
        let ghost pi = (pos.0 as int, pos.1 as int);
        let ns = self.neighbors(pos);
        let mut t: usize = 0;
        while t < ns.len()
            invariant
                self.wf(),
                adj.wf(),
                adj.spec_height() == n,
                adj.spec_depth() == n,
                km < adj.spec_width(),
                n == self@.len() as int,
                pi == (pos.0 as int, pos.1 as int),
                in_bounds(n, pi),
                t <= ns@.len(),
                forall|q: (usize, usize)|
                    ns@.contains(q) <==> (in_bounds(n, (q.0 as int, q.1 as int)) && adjacent(
                        pi,
                        (q.0 as int, q.1 as int),
                    )),
                forall|u: int|
                    0 <= u < t ==> !adj.spec_get(
                        km as int,
                        (#[trigger] ns@[u]).0 as int,
                        ns@[u].1 as int,
                    ),
            decreases ns@.len() - t,
        {
            let q = ns[t];
            proof {
                assert(ns@[t as int] == q);
                assert(ns@.contains(q));
            }
            if adj.get((km, q.0, q.1)) {
                proof {
                    let qi = (q.0 as int, q.1 as int);
                    assert(adjacent(qi, pi) && in_bounds(n, qi) && adj.spec_get(
                        km as int,
                        qi.0,
                        qi.1,
                    ));
                }
                return true;
            }
            t = t + 1;
        }
        proof {
            lemma_side_fits(n);
            assert forall|q: (int, int)|
                adjacent(q, pi) && in_bounds(n, q) implies !adj.spec_get(
                km as int,
                q.0,
                q.1,
            ) by {
                let qu = (q.0 as usize, q.1 as usize);
                assert((qu.0 as int, qu.1 as int) == q);
                assert(ns@.contains(qu));
                let u = choose|u: int| 0 <= u < ns@.len() && ns@[u] == qu;
                assert(!adj.spec_get(km as int, ns@[u].0 as int, ns@[u].1 as int));
            }
        }
        false
    }

    /// The approximate existence filter: true exactly when some chain of
    /// adjacent cells — the same cell may recur — spells `word`. Necessary
    /// for the word to be on the board, deliberately not sufficient. The
    /// two bounds keep the path-state table allocatable.
    pub fn has_word(&self, word: &[u8]) -> (r: bool)
        requires
            self.wf(),
            word@.len() * self@.len() <= isize::MAX,
            word@.len() * self@.len() * self@.len() <= isize::MAX,
        ensures
            r == chain_on_board(self@, word@),
    {
        let ghost b = self@;
        let n = self.len();
        let len = word.len();
        if len == 0 {
            return false;
        }
        let ghost last: int = len - 1;
        let mut adj = Vec3::fill(len, n, n, false);
        let mut k: usize = 0;
        while k < len
            invariant
                self.wf(),
                b == self@,
                n == b.len(),
                len == word@.len(),
                0 < len <= usize::MAX,
                last == len - 1,
                word@.len() * self@.len() <= isize::MAX,
                word@.len() * self@.len() * self@.len() <= isize::MAX,
                adj.wf(),
                adj.spec_width() == len,
                adj.spec_height() == n,
                adj.spec_depth() == n,
                k <= len,
                forall|k2: int, i2: int, j2: int|
                    0 <= k2 < k && 0 <= i2 < n && 0 <= j2 < n ==> (#[trigger] adj.spec_get(
                        k2,
                        i2,
                        j2,
                    ) == chain_to(b, word@, k2, (i2, j2))),
                forall|k2: int, i2: int, j2: int|
                    k <= k2 < len && 0 <= i2 < n && 0 <= j2 < n ==> !(#[trigger] adj.spec_get(
                        k2,
                        i2,
                        j2,
                    )),
                forall|i2: int, j2: int|
                    0 <= i2 < n && 0 <= j2 < n ==> !(#[trigger] adj.spec_get(last, i2, j2)),
            decreases len - k,
        {
            let mut i: usize = 0;
            while i < n
                invariant
                    self.wf(),
                    b == self@,
                    n == b.len(),
                    len == word@.len(),
                    0 < len <= usize::MAX,
                    last == len - 1,
                    adj.wf(),
                    adj.spec_width() == len,
                    adj.spec_height() == n,
                    adj.spec_depth() == n,
                    k < len,
                    i <= n,
                    forall|k2: int, i2: int, j2: int|
                        0 <= k2 < k && 0 <= i2 < n && 0 <= j2 < n ==> (#[trigger] adj.spec_get(
                            k2,
                            i2,
                            j2,
                        ) == chain_to(b, word@, k2, (i2, j2))),
                    forall|i2: int, j2: int|
                        0 <= i2 < i && 0 <= j2 < n ==> (#[trigger] adj.spec_get(
                            k as int,
                            i2,
                            j2,
                        ) == chain_to(b, word@, k as int, (i2, j2))),
                    forall|i2: int, j2: int|
                        i <= i2 < n && 0 <= j2 < n ==> !(#[trigger] adj.spec_get(
                            k as int,
                            i2,
                            j2,
                        )),
                    forall|k2: int, i2: int, j2: int|
                        k < k2 < len && 0 <= i2 < n && 0 <= j2 < n ==> !(#[trigger] adj.spec_get(
                            k2,
                            i2,
                            j2,
                        )),
                    forall|i2: int, j2: int|
                        0 <= i2 < n && 0 <= j2 < n ==> !(#[trigger] adj.spec_get(last, i2, j2)),
                decreases n - i,
            {
                let mut j: usize = 0;
                while j < n
                    invariant
                        self.wf(),
                        b == self@,
                        n == b.len(),
                        len == word@.len(),
                        0 < len <= usize::MAX,
                        last == len - 1,
                        adj.wf(),
                        adj.spec_width() == len,
                        adj.spec_height() == n,
                        adj.spec_depth() == n,
                        k < len,
                        i < n,
                        j <= n,
                        forall|k2: int, i2: int, j2: int|
                            0 <= k2 < k && 0 <= i2 < n && 0 <= j2 < n ==> (#[trigger] adj.spec_get(
                                k2,
                                i2,
                                j2,
                            ) == chain_to(b, word@, k2, (i2, j2))),
                        forall|i2: int, j2: int|
                            0 <= i2 < n && 0 <= j2 < n && (i2 < i || (i2 == i && j2 < j)) ==> (
                            #[trigger] adj.spec_get(k as int, i2, j2) == chain_to(
                                b,
                                word@,
                                k as int,
                                (i2, j2),
                            )),
                        forall|i2: int, j2: int|
                            0 <= i2 < n && 0 <= j2 < n && (i2 > i || (i2 == i && j2 >= j)) ==> !(
                            #[trigger] adj.spec_get(k as int, i2, j2)),
                        forall|k2: int, i2: int, j2: int|
                            k < k2 < len && 0 <= i2 < n && 0 <= j2 < n ==> !(
                            #[trigger] adj.spec_get(k2, i2, j2)),
                        forall|i2: int, j2: int|
                            0 <= i2 < n && 0 <= j2 < n ==> !(#[trigger] adj.spec_get(
                                last,
                                i2,
                                j2,
                            )),
                    decreases n - j,
                {
                    let ghost p = (i as int, j as int);
                    proof {
                        lemma_chain_unfold(b, word@, k as int, p);
                    }
                    if word[k] == self.at(i, j) {
                        if k == 0 {
                            adj.set((k, i, j), true);
                            proof {
                                assert(chain_to(b, word@, 0, p));
                            }
                            if len == 1 {
                                proof {
                                    lemma_chain_last(b, word@, last);
                                }
                                return true;
                            }
                        } else {
                            if self.level_reachable(&adj, k - 1, (i, j)) {
                                proof {
                                    let q = choose|q: (int, int)|
                                        adjacent(q, p) && in_bounds(n as int, q)
                                            && adj.spec_get((k - 1) as int, q.0, q.1);
                                    assert(chain_to(b, word@, k - 1, q));
                                    assert(chain_to(b, word@, k as int, p));
                                }
                                adj.set((k, i, j), true);
                                if k == len - 1 {
                                    proof {
                                        lemma_chain_last(b, word@, last);
                                    }
                                    return true;
                                }
                            } else {
                                proof {
                                    assert(!chain_to(b, word@, k as int, p)) by {
                                        if exists|q: (int, int)|
                                            adjacent(q, p) && chain_to(b, word@, (k - 1) as int, q) {
                                            let q = choose|q: (int, int)|
                                                adjacent(q, p) && chain_to(
                                                    b,
                                                    word@,
                                                    (k - 1) as int,
                                                    q,
                                                );
                                            assert(in_bounds(n as int, q));
                                            assert(adj.spec_get((k - 1) as int, q.0, q.1));
                                        }
                                    }
                                }
                            }
                        }
                    } else {
                        proof {
                            assert(!chain_to(b, word@, k as int, p));
                        }
                    }
                    j = j + 1;
                }
                i = i + 1;
            }
            k = k + 1;
        }
        proof {
            lemma_chain_last(b, word@, last);
            if chain_on_board(b, word@) {
                let p = choose|p: (int, int)| chain_to(b, word@, last, p);
                assert(in_bounds(n as int, p));
                assert(adj.spec_get(last, p.0, p.1) == chain_to(b, word@, last, p));
            }
        }
        false
    }

    /// The backtracking step of the exact search: whether a simple path
    /// spelling `word` from letter `k` on starts at the unvisited cell
    /// `(x, y)` and keeps clear of the visited cells. The mask is handed
    /// back as it came.
    #[verifier::rlimit(60)]
    fn dfs(&self, word: &[u8], k: usize, x: usize, y: usize, visited: &mut Vec2) -> (r: bool)
        requires
            self.wf(),
            old(visited).wf(),
            old(visited).spec_width() == self@.len(),
            old(visited).spec_height() == self@.len(),
            k < word@.len(),
            x < self@.len(),
            y < self@.len(),
            letter_at(self@, (x as int, y as int)) == word@[k as int],
            !old(visited).spec_get(x as int, y as int),
        ensures
            final(visited).wf(),
            final(visited).spec_width() == old(visited).spec_width(),
            final(visited).spec_height() == old(visited).spec_height(),
            forall|x2: int, y2: int|
                0 <= x2 < self@.len() && 0 <= y2 < self@.len()
                    ==> #[trigger] final(visited).spec_get(x2, y2) == old(visited).spec_get(x2, y2),
            r == ext_exists(
                self@,
                word@,
                k as int,
                (x as int, y as int),
                mask_cells(*old(visited), self@.len() as int),
            ),
        decreases word@.len() - k,
    {
        let ghost b = self@;
        let ghost n = self@.len() as int;
        let ghost p = (x as int, y as int);
        let ghost used0 = mask_cells(*old(visited), n);
        let wl = word.len();
        proof {
            lemma_side_fits(n);
        }
        if k == wl - 1 {
            proof {
                lemma_ext_single(b, word@, k as int, p, used0);
            }
            return true;
        }
        visited.set((x, y), true);
        let ghost used1 = mask_cells(*visited, n);
        proof {
            assert(used1 =~= used0.insert(p));
        }
        let ns = self.neighbors((x, y));
        let mut t: usize = 0;
        let mut found = false;
        while t < ns.len() && !found
            invariant
                self.wf(),
                b == self@,
                n == b.len(),
                p == (x as int, y as int),
                wl == word@.len(),
                k < wl - 1,
                n <= isize::MAX,
                x < n,
                y < n,
                letter_at(b, p) == word@[k as int],
                !used0.contains(p),
                used1 == used0.insert(p),
                visited.wf(),
                visited.spec_width() == n,
                visited.spec_height() == n,
                mask_cells(*visited, n) == used1,
                forall|x2: int, y2: int|
                    0 <= x2 < n && 0 <= y2 < n && (x2, y2) != p ==> #[trigger] visited.spec_get(
                        x2,
                        y2,
                    ) == old(visited).spec_get(x2, y2),
                visited.spec_get(p.0, p.1),
                t <= ns@.len(),
                forall|q: (usize, usize)|
                    ns@.contains(q) <==> (in_bounds(n, (q.0 as int, q.1 as int)) && adjacent(
                        p,
                        (q.0 as int, q.1 as int),
                    )),
                found ==> ext_exists(b, word@, k as int, p, used0),
                !found ==> forall|u: int|
                    0 <= u < t ==> !(letter_at(b, ((#[trigger] ns@[u]).0 as int, ns@[u].1 as int))
                        == word@[k + 1] && !used1.contains((ns@[u].0 as int, ns@[u].1 as int))
                        && ext_exists(b, word@, k + 1, (ns@[u].0 as int, ns@[u].1 as int), used1)),
            decreases ns@.len() - t,
        {
            let q = ns[t];
            proof {
                assert(ns@[t as int] == q);
                assert(ns@.contains(q));
            }
            let ghost qi = (q.0 as int, q.1 as int);
            if !visited.get((q.0, q.1)) && self.at(q.0, q.1) == word[k + 1] {
                proof {
                    assert(!used1.contains(qi));
                }
                let r2 = self.dfs(word, k + 1, q.0, q.1, visited);
                proof {
                    assert(mask_cells(*visited, n) =~= used1);
                }
                if r2 {
                    proof {
                        assert(ext_exists(b, word@, k + 1, qi, used1));
                        lemma_ext_cons(b, word@, k as int, p, qi, used0, used1);
                    }
                    found = true;
                }
            }
            t = t + 1;
        }
        visited.set((x, y), false);
        proof {
            assert forall|x2: int, y2: int| 0 <= x2 < n && 0 <= y2 < n implies #[trigger] visited
                .spec_get(x2, y2) == old(visited).spec_get(x2, y2) by {
                if (x2, y2) != p {
                }
            }
            if !found {
                assert(!ext_exists(b, word@, k as int, p, used0)) by {
                    if ext_exists(b, word@, k as int, p, used0) {
                        let q = lemma_ext_step(b, word@, k as int, p, used0, used1);
                        let qu = (q.0 as usize, q.1 as usize);
                        assert((qu.0 as int, qu.1 as int) == q);
                        assert(ns@.contains(qu));
                        let u = choose|u: int| 0 <= u < ns@.len() && ns@[u] == qu;
                        assert(ns@[u] == qu);
                    }
                }
            }
        }
        found
    }

    /// The exact search: true exactly when some simple path — no cell
    /// used twice — spells `word`.
    pub fn contains_word(&self, word: &[u8]) -> (r: bool)
        requires
            self.wf(),
        ensures
            r == found_on_board(self@, word@),
    {
        let ghost b = self@;
        let n = self.len();
        if word.len() == 0 {
            return false;
        }
        let mut i: usize = 0;
        while i < n
            invariant
                self.wf(),
                b == self@,
                n == b.len(),
                word@.len() > 0,
                i <= n,
                forall|p: (int, int)|
                    in_bounds(n as int, p) && p.0 < i ==> !(letter_at(b, p) == word@[0]
                        && #[trigger] ext_exists(b, word@, 0, p, Set::empty())),
            decreases n - i,
        {
            let mut j: usize = 0;
            while j < n
                invariant
                    self.wf(),
                    b == self@,
                    n == b.len(),
                    word@.len() > 0,
                    i < n,
                    j <= n,
                    forall|p: (int, int)|
                        in_bounds(n as int, p) && (p.0 < i || (p.0 == i && p.1 < j)) ==> !(
                        letter_at(b, p) == word@[0] && #[trigger] ext_exists(
                            b,
                            word@,
                            0,
                            p,
                            Set::empty(),
                        )),
                decreases n - j,
            {
                let ghost p = (i as int, j as int);
                if self.at(i, j) == word[0] {
                    let mut visited = Vec2::fill(n, n, false);
                    proof {
                        assert(mask_cells(visited, n as int) =~= Set::<(int, int)>::empty());
                    }
                    if self.dfs(word, 0, i, j, &mut visited) {
                        proof {
                            let path = choose|path: Seq<(int, int)>|
                                is_simple_path(b, word@.skip(0), path) && path.len() > 0 && path[0]
                                    == p && avoids(path, Set::empty());
                            assert(word@.skip(0) =~= word@);
                            assert(found_on_board(b, word@));
                        }
                        return true;
                    }
                }
                j = j + 1;
            }
            i = i + 1;
        }
        proof {
            if found_on_board(b, word@) {
                let path = choose|path: Seq<(int, int)>| is_simple_path(b, word@, path);
                let p = path[0];
                assert(in_bounds(n as int, p));
                assert(letter_at(b, p) == word@[0]);
                assert(ext_exists(b, word@, 0, p, Set::empty())) by {
                    assert(word@.skip(0) =~= word@);
                    assert(avoids(path, Set::<(int, int)>::empty()));
                    assert(path.len() > 0 && path[0] == p);
                }
            }
        }
        false
    }

    /// Whether a dictionary line belongs in the result: at least four
    /// letters, all on the board, and spelled by some simple path. The
    /// cheap tests run first; the chain filter is consulted only when its
    /// table fits the machine limits, which every reachable word meets.
    fn word_found(&self, w: &[u8]) -> (r: bool)
        requires
            self.wf(),
        ensures
            r == word_qualifies(self@, w@),
    {
        let ghost b = self@;
        let n = self.len();
        if w.len() < 4 {
            return false;
        }
        if !self.contains_letters(w) {
            proof {
                lemma_found_implies_letters(b, w@);
            }
            return false;
        }
        let mut pass = true;
        if let Some(a) = w.len().checked_mul(n) {
            if a <= (isize::MAX as usize) {
                if let Some(t) = a.checked_mul(n) {
                    if t <= (isize::MAX as usize) {
                        proof {
                            assert(a * n == w@.len() * (n as int) * (n as int)) by (nonlinear_arith)
                                requires
                                    a == w@.len() * n,
                            ;
                        }
                        pass = self.has_word(w);
                        if !pass {
                            proof {
                                lemma_found_implies_chain(b, w@);
                            }
                            return false;
                        }
                    }
                }
            }
        }
        self.contains_word(w)
    }

    /// The filter-then-verify solver: every dictionary line of at least
    /// four letters that a simple path spells, in dictionary order, a line
    /// repeated as often as it qualifies.
    pub fn solve_single_threaded(&self, words: &str) -> (r: Vec<Vec<u8>>)
        requires
            self.wf(),
        ensures
            r@.map_values(|v: Vec<u8>| v@) == found_lines(self@, words.spec_bytes()),
    {
        let ghost b = self@;
        let bytes = words.as_bytes();
        let dict = split_lines(bytes);
        let ghost ls = lines_of(words.spec_bytes());
        let ghost pred = |w: Seq<u8>| word_qualifies(b, w);
        let mut out: Vec<Vec<u8>> = Vec::new();
        proof {
            reveal(Seq::filter);
            assert(ls.take(0) =~= Seq::<Seq<u8>>::empty());
            assert(out@.map_values(|v: Vec<u8>| v@) =~= ls.take(0).filter(pred));
        }
        let mut idx: usize = 0;
        while idx < dict.len()
            invariant
                self.wf(),
                b == self@,
                dict@.map_values(|v: Vec<u8>| v@) == ls,
                pred == (|w: Seq<u8>| word_qualifies(b, w)),
                idx <= ls.len(),
                out@.map_values(|v: Vec<u8>| v@) == ls.take(idx as int).filter(pred),
            decreases ls.len() - idx,
        {
            proof {
                assert(ls[idx as int] == dict@[idx as int]@);
                lemma_filter_take_step(ls, idx as int, pred);
            }
            let w = &dict[idx];
            if self.word_found(w.as_slice()) {
                let ghost prev_out = out@.map_values(|v: Vec<u8>| v@);
                out.push(vstd::slice::slice_to_vec(w.as_slice()));
                proof {
                    assert(out@.map_values(|v: Vec<u8>| v@) =~= prev_out.push(ls[idx as int]));
                }
            }
            idx = idx + 1;
        }
        proof {
            assert(ls.take(ls.len() as int) =~= ls);
        }
        out
    }

    /// The trie-guided solver: builds a prefix tree from the dictionary
    /// lines of at least four letters whose letters the board holds, then
    /// sweeps the board once, collecting each word the first time a
    /// simple path spells it. The result lists, without repetition, the
    /// same words the filter-then-verify solver reports.
    #[verifier::rlimit(60)]
    pub fn solve_trie(&self, words: &str) -> (r: Vec<Vec<u8>>)
        requires
            self.wf(),
        ensures
            outs(r@).no_duplicates(),
            outs(r@).to_set() == found_lines(self@, words.spec_bytes()).to_set(),
    {
        let ghost b = self@;
        let ghost n_ = self@.len() as int;
        let bytes = words.as_bytes();
        let dict = split_lines(bytes);
        let ghost ls = lines_of(words.spec_bytes());
        let mut nodes: Vec<TrieNode> = Vec::new();
        let _root = TrieNode::root(&mut nodes);
        let mut idx: usize = 0;
        while idx < dict.len()
            invariant
                self.wf(),
                b == self@,
                dict@.map_values(|v: Vec<u8>| v@) == ls,
                trie_wf(nodes@),
                idx <= ls.len(),
                forall|w: Seq<u8>|
                    #[trigger] trie_word(nodes@, w) <==> exists|i2: int|
                        0 <= i2 < idx && ls[i2] == w && w.len() >= 4 && letters_on_board(b, w),
            decreases ls.len() - idx,
        {
            let ghost pre = nodes@;
            proof {
                assert(ls[idx as int] == dict@[idx as int]@);
            }
            let w = &dict[idx];
            if w.len() >= 4 && self.contains_letters(w.as_slice()) {
                proof {
                    lemma_letters_lowercase(b, w@);
                }
                TrieNode::insert(&mut nodes, w.as_slice());
                proof {
                    assert forall|w2: Seq<u8>| #[trigger] trie_word(nodes@, w2) <==> exists|
                        i2: int,
                    |
                        0 <= i2 < idx + 1 && ls[i2] == w2 && w2.len() >= 4 && letters_on_board(
                            b,
                            w2,
                        ) by {
                        if trie_word(nodes@, w2) {
                            if w2 == w@ {
                                assert(ls[idx as int] == w2 && w2.len() >= 4 && letters_on_board(
                                    b,
                                    w2,
                                ));
                            }
                        }
                        if exists|i2: int|
                            0 <= i2 < idx + 1 && ls[i2] == w2 && w2.len() >= 4
                                && letters_on_board(b, w2) {
                            let i2 = choose|i2: int|
                                0 <= i2 < idx + 1 && ls[i2] == w2 && w2.len() >= 4
                                    && letters_on_board(b, w2);
                            if i2 < idx {
                                assert(trie_word(pre, w2));
                            }
                        }
                    }
                }
            } else {
                proof {
                    assert forall|w2: Seq<u8>| #[trigger] trie_word(nodes@, w2) <==> exists|
                        i2: int,
                    |
                        0 <= i2 < idx + 1 && ls[i2] == w2 && w2.len() >= 4 && letters_on_board(
                            b,
                            w2,
                        ) by {
                        if exists|i2: int|
                            0 <= i2 < idx + 1 && ls[i2] == w2 && w2.len() >= 4
                                && letters_on_board(b, w2) {
                            let i2 = choose|i2: int|
                                0 <= i2 < idx + 1 && ls[i2] == w2 && w2.len() >= 4
                                    && letters_on_board(b, w2);
                            assert(i2 < idx);
                        }
                    }
                }
            }
            idx = idx + 1;
        }
        let n = self.len();
        let mut visited = Vec2::fill(n, n, false);
        let mut seen: Vec<bool> = vec![false; nodes.len()];
        let mut out: Vec<Vec<u8>> = Vec::new();
        proof {
            assert(mask_cells(visited, n_) =~= Set::<(int, int)>::empty());
            assert(outs(out@) =~= Seq::<Seq<u8>>::empty());
            assert(seen_ok(nodes@, seen@, outs(out@)));
        }
        let mut i: usize = 0;
        while i < n
            invariant
                self.wf(),
                b == self@,
                n == b.len(),
                n_ == n,
                trie_wf(nodes@),
                i <= n,
                visited.wf(),
                visited.spec_width() == n,
                visited.spec_height() == n,
                mask_cells(visited, n_) == Set::<(int, int)>::empty(),
                seen@.len() == nodes@.len(),
                seen_ok(nodes@, seen@, outs(out@)),
                outs(out@).no_duplicates(),
                forall|w: Seq<u8>|
                    #[trigger] outs(out@).to_set().contains(w) <==> exists|ci: int, cj: int|
                        in_bounds(n_, (ci, cj)) && ci < i && #[trigger] cell_has(
                            b,
                            nodes@,
                            ci,
                            cj,
                            w,
                        ),
            decreases n - i,
        {
            let mut j: usize = 0;
            while j < n
                invariant
                    self.wf(),
                    b == self@,
                    n == b.len(),
                    n_ == n,
                    trie_wf(nodes@),
                    i < n,
                    j <= n,
                    visited.wf(),
                    visited.spec_width() == n,
                    visited.spec_height() == n,
                    mask_cells(visited, n_) == Set::<(int, int)>::empty(),
                    seen@.len() == nodes@.len(),
                    seen_ok(nodes@, seen@, outs(out@)),
                    outs(out@).no_duplicates(),
                    forall|w: Seq<u8>|
                        #[trigger] outs(out@).to_set().contains(w) <==> exists|ci: int, cj: int|
                            in_bounds(n_, (ci, cj)) && (ci < i || (ci == i && cj < j))
                                && #[trigger] cell_has(b, nodes@, ci, cj, w),
                decreases n - j,
            {
                let ghost out_before = outs(out@);
                let ghost cell = (i as int, j as int);
                let c = self.at(i, j);
                match TrieNode::get(&nodes, 0, c) {
                    Some(ch) => {
                        proof {
                            assert(child_of(nodes@, 0, c) == Some(ch));
                            assert(0 < ch < nodes@.len());
                            assert(!visited.spec_get(i as int, j as int)) by {
                                assert(!mask_cells(visited, n_).contains(cell));
                            }
                        }
                        self.dfs_trie(&nodes, ch, i, j, &mut visited, &mut seen, &mut out);
                        proof {
                            assert(mask_cells(visited, n_) =~= Set::<(int, int)>::empty());
                            assert forall|w: Seq<u8>| #[trigger] outs(out@).to_set().contains(w)
                                <==> exists|ci: int, cj: int|
                                in_bounds(n_, (ci, cj)) && (ci < i || (ci == i && cj < j + 1))
                                    && #[trigger] cell_has(b, nodes@, ci, cj, w) by {
                                if outs(out@).to_set().contains(w) {
                                    if out_before.to_set().contains(w) {
                                    } else {
                                        assert(reach_has(
                                            b,
                                            nodes@,
                                            ch as int,
                                            cell,
                                            Set::empty(),
                                            w,
                                        ));
                                        assert(cell_has(b, nodes@, cell.0, cell.1, w));
                                    }
                                }
                                if exists|ci: int, cj: int|
                                    in_bounds(n_, (ci, cj)) && (ci < i || (ci == i && cj < j
                                        + 1)) && #[trigger] cell_has(b, nodes@, ci, cj, w) {
                                    let (ci, cj) = choose|ci: int, cj: int|
                                        in_bounds(n_, (ci, cj)) && (ci < i || (ci == i && cj < j
                                            + 1)) && #[trigger] cell_has(b, nodes@, ci, cj, w);
                                    if ci == i && cj == j {
                                        assert(reach_has(
                                            b,
                                            nodes@,
                                            ch as int,
                                            cell,
                                            Set::empty(),
                                            w,
                                        ));
                                        assert(outs(out@).to_set().contains(w));
                                    } else {
                                        assert(out_before.to_set().contains(w));
                                    }
                                }
                            }
                        }
                    },
                    None => {
                        proof {
                            assert forall|w: Seq<u8>| #[trigger] outs(out@).to_set().contains(w)
                                <==> exists|ci: int, cj: int|
                                in_bounds(n_, (ci, cj)) && (ci < i || (ci == i && cj < j + 1))
                                    && #[trigger] cell_has(b, nodes@, ci, cj, w) by {
                                if exists|ci: int, cj: int|
                                    in_bounds(n_, (ci, cj)) && (ci < i || (ci == i && cj < j
                                        + 1)) && #[trigger] cell_has(b, nodes@, ci, cj, w) {
                                    let (ci, cj) = choose|ci: int, cj: int|
                                        in_bounds(n_, (ci, cj)) && (ci < i || (ci == i && cj < j
                                            + 1)) && #[trigger] cell_has(b, nodes@, ci, cj, w);
                                    if ci == i && cj == j {
                                        assert(child_of(nodes@, 0, letter_at(b, cell)) is None);
                                        assert(false);
                                    }
                                }
                            }
                        }
                    },
                }
                j = j + 1;
            }
            i = i + 1;
        }
        proof {
            assert forall|w: Seq<u8>| #[trigger] outs(out@).to_set().contains(w) <==> found_lines(
                b,
                words.spec_bytes(),
            ).to_set().contains(w) by {
                lemma_found_lines_set(b, words.spec_bytes(), w);
                if outs(out@).to_set().contains(w) {
                    let (ci, cj) = choose|ci: int, cj: int|
                        in_bounds(n_, (ci, cj)) && ci < n && #[trigger] cell_has(
                            b,
                            nodes@,
                            ci,
                            cj,
                            w,
                        );
                    lemma_cell_sound(b, nodes@, ci, cj, w);
                    assert(trie_word(nodes@, w) && found_on_board(b, w));
                    assert(ls.contains(w) && w.len() >= 4);
                }
                if ls.contains(w) && word_qualifies(b, w) {
                    lemma_found_implies_letters(b, w);
                    let i2 = choose|i2: int| 0 <= i2 < ls.len() && ls[i2] == w;
                    assert(trie_word(nodes@, w));
                    lemma_cell_complete(b, nodes@, w);
                    let (ci, cj) = choose|ci: int, cj: int|
                        in_bounds(n_, (ci, cj)) && #[trigger] cell_has(b, nodes@, ci, cj, w);
                    assert(ci < n);
                    assert(outs(out@).to_set().contains(w));
                }
            }
            assert(outs(out@).to_set() =~= found_lines(b, words.spec_bytes()).to_set());
        }
        out
    }

    /// One branch of the trie-guided search: standing on the unvisited
    /// cell `(x, y)` at trie node `t`, collect — once each — every word
    /// of the subtree below `t` that a simple continuation spells, and
    /// hand the mask back as it came.
    #[verifier::rlimit(100)]
    fn dfs_trie(
        &self,
        nodes: &Vec<TrieNode>,
        t: usize,
        x: usize,
        y: usize,
        visited: &mut Vec2,
        seen: &mut Vec<bool>,
        out: &mut Vec<Vec<u8>>,
    )
        requires
            self.wf(),
            trie_wf(nodes@),
            t < nodes@.len(),
            old(visited).wf(),
            old(visited).spec_width() == self@.len(),
            old(visited).spec_height() == self@.len(),
            x < self@.len(),
            y < self@.len(),
            !old(visited).spec_get(x as int, y as int),
            old(seen)@.len() == nodes@.len(),
            seen_ok(nodes@, old(seen)@, outs(old(out)@)),
            outs(old(out)@).no_duplicates(),
        ensures
            final(visited).wf(),
            final(visited).spec_width() == old(visited).spec_width(),
            final(visited).spec_height() == old(visited).spec_height(),
            forall|x2: int, y2: int|
                0 <= x2 < self@.len() && 0 <= y2 < self@.len()
                    ==> #[trigger] final(visited).spec_get(x2, y2) == old(visited).spec_get(x2, y2),
            final(seen)@.len() == nodes@.len(),
            seen_ok(nodes@, final(seen)@, outs(final(out)@)),
            outs(final(out)@).no_duplicates(),
            forall|w: Seq<u8>|
                #![trigger outs(final(out)@).to_set().contains(w)]
                #![trigger reach_has(
                    self@,
                    nodes@,
                    t as int,
                    (x as int, y as int),
                    mask_cells(*old(visited), self@.len() as int),
                    w,
                )]
                outs(final(out)@).to_set().contains(w) <==> (outs(old(out)@).to_set().contains(w)
                    || reach_has(
                    self@,
                    nodes@,
                    t as int,
                    (x as int, y as int),
                    mask_cells(*old(visited), self@.len() as int),
                    w,
                )),
        decreases nodes@.len() - t,
    {
        let ghost b = self@;
        let ghost n = b.len() as int;
        let ghost p = (x as int, y as int);
        let ghost used0 = mask_cells(*old(visited), n);
        let ghost used1 = used0.insert(p);
        proof {
            lemma_side_fits(n);
        }
        if nodes[t].word_end && !seen[t] {
            let ghost prev_outs = outs(out@);
            let ghost w0 = nodes@[t as int].word@;
            seen[t] = true;
            out.push(vstd::slice::slice_to_vec(nodes[t].word.as_slice()));
            proof {
                assert(outs(out@) =~= prev_outs.push(w0));
                assert(!prev_outs.contains(w0));
                assert(prev_outs.push(w0) =~= prev_outs + seq![w0]);
                Seq::lemma_to_set_insert_commutes(prev_outs, w0);
                assert(outs(out@).to_set() == prev_outs.to_set().insert(w0));
                assert(outs(out@).no_duplicates()) by {
                    assert forall|i2: int, j2: int|
                        0 <= i2 < j2 < outs(out@).len() implies outs(out@)[i2] != outs(
                        out@,
                    )[j2] by {
                        if j2 == outs(out@).len() - 1 {
                            assert(prev_outs[i2] == outs(out@)[i2]);
                            assert(prev_outs.contains(prev_outs[i2]));
                        } else {
                            assert(prev_outs[i2] == outs(out@)[i2] && prev_outs[j2] == outs(
                                out@,
                            )[j2]);
                        }
                    }
                }
                assert(seen_ok(nodes@, seen@, outs(out@))) by {
                    assert forall|m: int|
                        0 <= m < nodes@.len() && nodes@[m].word_end implies (#[trigger] seen@[m]
                        <==> outs(out@).contains(nodes@[m].word@)) by {
                        if m == t {
                            assert(outs(out@)[outs(out@).len() - 1] == w0);
                        } else {
                            assert(node_at(nodes@, 0, nodes@[m].word@) == Some(m));
                            assert(node_at(nodes@, 0, nodes@[t as int].word@) == Some(t as int));
                            assert(nodes@[m].word@ != w0);
                            assert(outs(out@).contains(nodes@[m].word@) == prev_outs.contains(
                                nodes@[m].word@,
                            )) by {
                                if prev_outs.contains(nodes@[m].word@) {
                                    let i2 = choose|i2: int|
                                        0 <= i2 < prev_outs.len() && prev_outs[i2] == nodes@[m].word@;
                                    assert(outs(out@)[i2] == nodes@[m].word@);
                                } else if outs(out@).contains(nodes@[m].word@) {
                                    let i2 = choose|i2: int|
                                        0 <= i2 < outs(out@).len() && outs(out@)[i2]
                                            == nodes@[m].word@;
                                    assert(i2 < prev_outs.len());
                                    assert(prev_outs[i2] == nodes@[m].word@);
                                }
                            }
                        }
                    }
                }
            }
        }
        let ghost out1 = outs(out@);
        proof {
            if nodes@[t as int].word_end {
                assert(out1.contains(nodes@[t as int].word@));
                assert(out1.to_set().contains(nodes@[t as int].word@));
            }
            assert forall|w: Seq<u8>| out1.to_set().contains(w) implies (outs(
                old(out)@,
            ).to_set().contains(w) || #[trigger] reach_has(b, nodes@, t as int, p, used0, w)) by {
                if !outs(old(out)@).to_set().contains(w) {
                    assert(w == nodes@[t as int].word@);
                    assert(w == nodes@[t as int].word@ + Seq::<u8>::empty()) by {
                        assert(nodes@[t as int].word@ + Seq::<u8>::empty() =~= w);
                    }
                    assert(node_at(nodes@, t as int, Seq::<u8>::empty()) == Some(t as int));
                    assert(reach_wit(b, nodes@, t as int, p, used0, w, Seq::<u8>::empty()));
                }
            }
        }
        visited.set((x, y), true);
        proof {
            assert(mask_cells(*visited, n) =~= used1);
        }
        let ns = self.neighbors((x, y));
        let mut u: usize = 0;
        while u < ns.len()
            invariant
                self.wf(),
                trie_wf(nodes@),
                t < nodes@.len(),
                b == self@,
                n == b.len(),
                p == (x as int, y as int),
                x < n,
                y < n,
                n <= isize::MAX,
                used1 == used0.insert(p),
                !used0.contains(p),
                visited.wf(),
                visited.spec_width() == n,
                visited.spec_height() == n,
                mask_cells(*visited, n) == used1,
                forall|x2: int, y2: int|
                    0 <= x2 < n && 0 <= y2 < n && (x2, y2) != p ==> #[trigger] visited.spec_get(
                        x2,
                        y2,
                    ) == old(visited).spec_get(x2, y2),
                visited.spec_get(p.0, p.1),
                seen@.len() == nodes@.len(),
                seen_ok(nodes@, seen@, outs(out@)),
                outs(out@).no_duplicates(),
                u <= ns@.len(),
                forall|q: (usize, usize)|
                    ns@.contains(q) <==> (in_bounds(n, (q.0 as int, q.1 as int)) && adjacent(
                        p,
                        (q.0 as int, q.1 as int),
                    )),
                forall|w: Seq<u8>|
                    #[trigger] out1.to_set().contains(w) ==> outs(out@).to_set().contains(w),
                nodes@[t as int].word_end ==> outs(out@).to_set().contains(
                    nodes@[t as int].word@,
                ),
                forall|w: Seq<u8>|
                    #[trigger] outs(out@).to_set().contains(w) ==> (outs(
                        old(out)@,
                    ).to_set().contains(w) || reach_has(b, nodes@, t as int, p, used0, w)),
                forall|u2: int, w: Seq<u8>|
                    0 <= u2 < u && #[trigger] nbr_reach(
                        b,
                        nodes@,
                        t as int,
                        ((#[trigger] ns@[u2]).0 as int, ns@[u2].1 as int),
                        used1,
                        w,
                    ) ==> outs(out@).to_set().contains(w),
            decreases ns@.len() - u,
        {
            let q = ns[u];
            proof {
                assert(ns@[u as int] == q);
                assert(ns@.contains(q));
            }
            let ghost qi = (q.0 as int, q.1 as int);
            let ghost out_before = outs(out@);
            if !visited.get((q.0, q.1)) {
                let c = self.at(q.0, q.1);
                match TrieNode::get(nodes, t, c) {
                    Some(ch) => {
                        proof {
                            assert(child_of(nodes@, t as int, c) == Some(ch));
                            assert((t as int) < ch < nodes@.len());
                            assert(!used1.contains(qi));
                        }
                        self.dfs_trie(nodes, ch, q.0, q.1, visited, seen, out);
                        proof {
                            assert(mask_cells(*visited, n) =~= used1);
                            assert forall|w: Seq<u8>| #[trigger] outs(out@).to_set().contains(
                                w,
                            ) implies (outs(old(out)@).to_set().contains(w) || reach_has(
                                b,
                                nodes@,
                                t as int,
                                p,
                                used0,
                                w,
                            )) by {
                                if !out_before.to_set().contains(w) {
                                    assert(reach_has(b, nodes@, ch as int, qi, used1, w));
                                    lemma_reach_unfold(b, nodes@, t as int, p, used0, w);
                                    assert(reach_words(b, nodes@, ch as int, qi, used1).contains(
                                        w,
                                    ));
                                }
                            }
                            assert forall|w: Seq<u8>| #[trigger] nbr_reach(
                                b,
                                nodes@,
                                t as int,
                                qi,
                                used1,
                                w,
                            ) implies outs(out@).to_set().contains(w) by {
                                assert(child_of(nodes@, t as int, letter_at(b, qi)) == Some(ch));
                                assert(reach_has(b, nodes@, ch as int, qi, used1, w));
                            }
                        }
                    },
                    None => {
                        proof {
                            assert forall|w: Seq<u8>| !(#[trigger] nbr_reach(
                                b,
                                nodes@,
                                t as int,
                                qi,
                                used1,
                                w,
                            )) by {
                                assert(child_of(nodes@, t as int, letter_at(b, qi)) is None);
                            }
                        }
                    },
                }
            } else {
                proof {
                    assert(used1.contains(qi));
                    assert forall|w: Seq<u8>| !(#[trigger] nbr_reach(
                        b,
                        nodes@,
                        t as int,
                        qi,
                        used1,
                        w,
                    )) by {}
                }
            }
            u = u + 1;
        }
        visited.set((x, y), false);
        proof {
            assert forall|x2: int, y2: int| 0 <= x2 < n && 0 <= y2 < n implies #[trigger] visited
                .spec_get(x2, y2) == old(visited).spec_get(x2, y2) by {
                if (x2, y2) != p {
                }
            }
            assert forall|w: Seq<u8>|
                #[trigger] reach_has(b, nodes@, t as int, p, used0, w) && !outs(
                    old(out)@,
                ).to_set().contains(w) implies outs(out@).to_set().contains(w) by {
                lemma_reach_unfold(b, nodes@, t as int, p, used0, w);
                if nodes@[t as int].word_end && w == nodes@[t as int].word@ {
                } else {
                    let (q0, ch) = choose|q0: (int, int), ch: int|
                        adjacent(p, q0) && in_bounds(n, q0) && !used1.contains(q0) && child_of(
                            nodes@,
                            t as int,
                            letter_at(b, q0),
                        ) == Some(ch as usize) && 0 <= ch < nodes@.len() && #[trigger] reach_words(
                            b,
                            nodes@,
                            ch,
                            q0,
                            used1,
                        ).contains(w);
                    let qu = (q0.0 as usize, q0.1 as usize);
                    assert((qu.0 as int, qu.1 as int) == q0);
                    assert(ns@.contains(qu));
                    let u2 = choose|u2: int| 0 <= u2 < ns@.len() && ns@[u2] == qu;
                    assert(reach_words(b, nodes@, ch, q0, used1).contains(w) == reach_has(
                        b,
                        nodes@,
                        ch,
                        q0,
                        used1,
                        w,
                    ));
                    assert(nbr_reach(b, nodes@, t as int, q0, used1, w));
                    assert(ns@[u2] == qu);
                    assert(nbr_reach(
                        b,
                        nodes@,
                        t as int,
                        (ns@[u2].0 as int, ns@[u2].1 as int),
                        used1,
                        w,
                    ));
                }
            }
            assert forall|w: Seq<u8>|
                #![trigger outs(out@).to_set().contains(w)]
                #![trigger reach_has(b, nodes@, t as int, p, used0, w)]
                outs(out@).to_set().contains(w) <==> (outs(old(out)@).to_set().contains(w)
                    || reach_has(b, nodes@, t as int, p, used0, w)) by {
                if outs(old(out)@).to_set().contains(w) {
                    assert(out1.to_set().contains(w));
                    assert(outs(out@).to_set().contains(w));
                }
            }
        }
    }

    /// The in-bounds neighbours of `pos`, in the fixed direction order.
    pub fn neighbors(&self, pos: (usize, usize)) -> (r: Vec<(usize, usize)>)
        requires
            self.wf(),
            in_bounds(self@.len() as int, (pos.0 as int, pos.1 as int)),
        ensures
            r@ == neighbors_of(self@.len() as int, pos.0 as int, pos.1 as int),
            forall|q: (usize, usize)|
                r@.contains(q) <==> (in_bounds(self@.len() as int, (q.0 as int, q.1 as int))
                    && adjacent((pos.0 as int, pos.1 as int), (q.0 as int, q.1 as int))),
    {
        let (x, y) = pos;
        let ghost n = self@.len() as int;
        proof {
            lemma_side_fits(n);
        }
        let mut r: Vec<(usize, usize)> = Vec::new();
        let mut k: usize = 0;
        while k < 8
            invariant
                self.wf(),
                in_bounds(n, (x as int, y as int)),
                n == self@.len() as int,
                k <= 8,
                n <= isize::MAX,
                r@ == neighbor_prefix(n, x as int, y as int, k as int),
            decreases 8 - k,
        {
            let (dx, dy) = direction(k);
            let cx = x as isize + dx;
            let cy = y as isize + dy;
            if self.get((cx, cy)).is_some() {
                r.push((cx as usize, cy as usize));
            }
            k = k + 1;
        }
        proof {
            assert forall|q: (usize, usize)| r@.contains(q) <==> (in_bounds(
                n,
                (q.0 as int, q.1 as int),
            ) && adjacent((x as int, y as int), (q.0 as int, q.1 as int))) by {
                lemma_neighbors_complete(n, x as int, y as int, q);
            }
        }
        r
    }

    /// True when every letter of `word` appears somewhere on the grid.
    pub fn contains_letters(&self, word: &[u8]) -> (r: bool)
        requires
            self.wf(),
        ensures
            r == letters_on_board(self@, word@),
    {
        let mut i: usize = 0;
        while i < word.len()
            invariant
                self.wf(),
                i <= word@.len(),
                forall|j: int| 0 <= j < i ==> letter_present(self@, #[trigger] word@[j]),
            decreases word@.len() - i,
        {
            let c = word[i];
            if c < LETTER_A || c > LETTER_Z {
                proof {
                    assert forall|p: (int, int)| in_bounds(self@.len() as int, p) implies
                        letter_at(self@, p) != c by {
                        assert(all_lowercase(self@[p.0]));
                    }
                }
                return false;
            }
            if !self.letters[(c - LETTER_A) as usize] {
                return false;
            }
            i = i + 1;
        }
        true
    }
}

/// The unit offset of direction `k`, clockwise starting at east.
fn direction(k: usize) -> (r: (isize, isize))
    requires
        k < 8,
    ensures
        (r.0 as int, r.1 as int) == directions()[k as int],
{
    match k {
        0 => (1, 0),
        1 => (1, 1),
        2 => (0, 1),
        3 => (-1, 1),
        4 => (-1, 0),
        5 => (-1, -1),
        6 => (0, -1),
        _ => (1, -1),
    }
}

} // verus!
