//! A Boggle solver: finds every dictionary word that can be traced as a
//! simple path of 8-directionally adjacent cells on a square grid of
//! lowercase letters, each cell used at most once per word.

pub mod board;
pub mod error;
pub mod lines;
pub mod multivec;
pub mod trie;

use vstd::prelude::*;

verus! {

/// The byte value of `'a'`.
pub const LETTER_A: u8 = 97;

/// The byte value of `'z'`.
pub const LETTER_Z: u8 = 122;

/// True when every byte of `s` is an ASCII lowercase letter.
pub open spec fn all_lowercase(s: Seq<u8>) -> bool {
    forall|i: int| 0 <= i < s.len() ==> LETTER_A <= #[trigger] s[i] <= LETTER_Z
}

} // verus!
