//! Splitting a text blob into newline-delimited lines, the way both the
//! board text and the dictionary text are read.

use vstd::prelude::*;

verus! {

/// The byte value of `'\n'`.
pub const NEWLINE: u8 = 10;

/// The byte value of `'\r'`.
pub const CARRIAGE_RETURN: u8 = 13;

/// The index of the first newline in `s`, or `s.len()` when there is none.
pub open spec fn find_nl(s: Seq<u8>) -> int
    decreases s.len(),
{
    if s.len() == 0 {
        0
    } else if s[0] == NEWLINE {
        0
    } else {
        1 + find_nl(s.skip(1))
    }
}

/// The line with one trailing carriage return removed.
pub open spec fn strip_cr(t: Seq<u8>) -> Seq<u8> {
    if t.len() > 0 && t.last() == CARRIAGE_RETURN {
        t.drop_last()
    } else {
        t
    }
}

/// The lines of `s`: one per newline-terminated segment, a final segment
/// without a newline included, a trailing carriage return dropped from each.
/// An empty text has no lines; a trailing newline opens no empty last line.
pub open spec fn lines_of(s: Seq<u8>) -> Seq<Seq<u8>>
    decreases s.len(),
    via lines_of_decreases
{
    if s.len() == 0 {
        Seq::empty()
    } else {
        let i = find_nl(s);
        if i == s.len() {
            seq![strip_cr(s)]
        } else {
            seq![strip_cr(s.take(i))] + lines_of(s.skip(i + 1))
        }
    }
}

#[via_fn]
proof fn lines_of_decreases(s: Seq<u8>) {
    lemma_find_nl(s);
}

/// Where the first newline lies: nowhere before it, and at it unless the
/// text has none.
pub proof fn lemma_find_nl(s: Seq<u8>)
    ensures
        0 <= find_nl(s) <= s.len(),
        forall|j: int| 0 <= j < find_nl(s) ==> s[j] != NEWLINE,
        find_nl(s) < s.len() ==> s[find_nl(s)] == NEWLINE,
    decreases s.len(),
{
    if s.len() != 0 && s[0] != NEWLINE {
        lemma_find_nl(s.skip(1));
        assert forall|j: int| 0 <= j < find_nl(s) implies s[j] != NEWLINE by {
            if j > 0 {
                assert(s.skip(1)[j - 1] == s[j]);
            }
        }
    }
}

/// A position with no newline before it and a newline (or the end) at it
/// is the first newline position.
pub proof fn lemma_find_nl_at(s: Seq<u8>, k: int)
    requires
        0 <= k <= s.len(),
        forall|j: int| 0 <= j < k ==> s[j] != NEWLINE,
        k < s.len() ==> s[k] == NEWLINE,
    ensures
        find_nl(s) == k,
    decreases s.len(),
{
    if s.len() != 0 && s[0] != NEWLINE {
        assert forall|j: int| 0 <= j < k - 1 implies s.skip(1)[j] != NEWLINE by {
            assert(s.skip(1)[j] == s[j + 1]);
        }
        assert(k - 1 < s.skip(1).len() ==> s.skip(1)[k - 1] == NEWLINE);
        lemma_find_nl_at(s.skip(1), k - 1);
    }
}

/// Splits `s` into its lines.
pub fn split_lines(s: &[u8]) -> (r: Vec<Vec<u8>>)
    ensures
        r@.map_values(|v: Vec<u8>| v@) == lines_of(s@),
{
    let mut out: Vec<Vec<u8>> = Vec::new();
    let mut i: usize = 0;
    proof {
        assert(s@.skip(0) =~= s@);
        assert(out@.map_values(|v: Vec<u8>| v@) =~= Seq::<Seq<u8>>::empty());
        assert(Seq::<Seq<u8>>::empty() + lines_of(s@) =~= lines_of(s@));
    }
    while i < s.len()
        invariant
            i <= s@.len(),
            out@.map_values(|v: Vec<u8>| v@) + lines_of(s@.skip(i as int)) == lines_of(s@),
        decreases s@.len() - i,
    {
        let ghost rest = s@.skip(i as int);
        let mut line: Vec<u8> = Vec::new();
        let mut j: usize = i;
        while j < s.len() && s[j] != NEWLINE
            invariant
                i <= j <= s@.len(),
                line@ == s@.subrange(i as int, j as int),
                forall|m: int| i <= m < j ==> s@[m] != NEWLINE,
            decreases s@.len() - j,
        {
            line.push(s[j]);
            j = j + 1;
        }
        proof {
            assert forall|m: int| 0 <= m < j - i implies rest[m] != NEWLINE by {
                assert(rest[m] == s@[i + m]);
            }
            if (j as int) < s@.len() {
                assert(rest[j - i] == s@[j as int]);
            }
            lemma_find_nl_at(rest, j - i);
            assert(rest.take(j - i) =~= s@.subrange(i as int, j as int));
            assert(rest =~= s@.subrange(i as int, s@.len() as int));
        }
        if line.len() > 0 && line[line.len() - 1] == CARRIAGE_RETURN {
            let _ = line.pop();
            proof {
                assert(line@ =~= strip_cr(s@.subrange(i as int, j as int)));
            }
        }
        proof {
            assert(line@ == strip_cr(s@.subrange(i as int, j as int)));
        }
        let ghost prev_out = out@.map_values(|v: Vec<u8>| v@);
        out.push(line);
        proof {
            assert(out@.map_values(|v: Vec<u8>| v@) =~= prev_out.push(line@));
        }
        if j < s.len() {
            proof {
                assert(lines_of(rest) == seq![line@] + lines_of(rest.skip(j - i + 1)));
                assert(rest.skip(j - i + 1) =~= s@.skip(j + 1));
                assert(prev_out.push(line@) + lines_of(s@.skip(j + 1)) =~= prev_out + lines_of(
                    s@.skip(i as int),
                ));
            }
            i = j + 1;
        } else {
            proof {
                assert(lines_of(rest) == seq![line@]);
                assert(prev_out.push(line@) + lines_of(s@.skip(s@.len() as int)) =~= prev_out
                    + lines_of(s@.skip(i as int)));
            }
            i = j;
        }
    }
    proof {
        assert(out@.map_values(|v: Vec<u8>| v@) =~= lines_of(s@));
    }
    out
}

} // verus!
