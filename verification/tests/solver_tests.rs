use boggle::board::Board;
use boggle::error::Error;

const BOARD: &str = "abcd\nefgh\nijkl\nmnop";

// The concrete single-word scenarios: a straight row, the main diagonal,
// and two words whose letters sit on the board without being adjacent.
#[test]
fn scenario_exact_words() {
    let board = Board::parse(BOARD).unwrap();
    assert!(board.contains_word(b"abcd"));
    assert!(board.contains_word(b"afkp"));
    assert!(!board.contains_word(b"lies"));
    assert!(!board.contains_word(b"mapb"));
}

// A word that needs the same cell twice: the approximate filter accepts
// it, the exact search rejects it.
#[test]
fn filter_is_approximate() {
    let board = Board::parse(BOARD).unwrap();
    assert!(board.has_word(b"abab"));
    assert!(!board.contains_word(b"abab"));
    let count = board.solve_single_threaded("abab").len();
    assert_eq!(count, 0);
}

// The filter never rejects a word the exact search would find.
#[test]
fn filter_superset_samples() {
    let board = Board::parse(BOARD).unwrap();
    let words: [&[u8]; 6] = [b"abcd", b"afkp", b"plonk", b"mnop", b"abef", b"dhlp"];
    for w in words {
        if board.contains_word(w) {
            assert!(board.has_word(w));
        }
    }
}

// Boards that are too small, not square, or not lowercase letters are
// refused with a board-size error rather than a crash.
#[test]
fn boundary_bad_boards() {
    assert!(matches!(Board::parse("ab\ncd"), Err(Error::BoardSize(_))));
    assert!(matches!(Board::parse("abc\ndef"), Err(Error::BoardSize(_))));
    assert!(matches!(Board::parse("abc\nde\nfgh"), Err(Error::BoardSize(_))));
    assert!(matches!(Board::parse(""), Err(Error::BoardSize(_))));
    assert!(matches!(Board::parse("ab1\ndef\nghi"), Err(Error::BoardSize(_))));
    assert!(matches!(Board::parse("ABC\nDEF\nGHI"), Err(Error::BoardSize(_))));
    assert!(Board::parse("abc\ndef\nghi").is_ok());
}

// Both strategies report the same words on the same inputs.
#[test]
fn strategies_agree() {
    let board = Board::parse(BOARD).unwrap();
    let dict = "abcd\nafkp\nlies\nmapb\nabef\nxyz\nzzzz\nmine\nplonk\nponm\ndcba";
    let mut single = board.solve_single_threaded(dict);
    let mut trie = board.solve_trie(dict);
    assert_eq!(single.len(), trie.len());
    single.sort();
    trie.sort();
    assert_eq!(single, trie);
}

// Running a solver twice on the same inputs yields the same answer.
#[test]
fn solve_is_idempotent() {
    let board = Board::parse(BOARD).unwrap();
    let dict = "abcd\nafkp\nlies\nabef\nplonk";
    let first = board.solve_single_threaded(dict);
    let second = board.solve_single_threaded(dict);
    assert_eq!(first, second);
    let mut t1 = board.solve_trie(dict);
    let mut t2 = board.solve_trie(dict);
    t1.sort();
    t2.sort();
    assert_eq!(t1, t2);
}

// Letter membership is checked before any search.
#[test]
fn letter_membership() {
    let board = Board::parse(BOARD).unwrap();
    assert!(board.contains_letters(b"ponm"));
    assert!(!board.contains_letters(b"quiz"));
    assert!(!board.contains_letters(b"AB"));
}

// Short words are filtered out; a three-letter word is never reported.
#[test]
fn short_words_filtered() {
    let board = Board::parse(BOARD).unwrap();
    assert_eq!(board.solve_single_threaded("abc\nab\na\n").len(), 0);
    assert_eq!(board.solve_trie("abc\nab\na\n").len(), 0);
}

// Out-of-bounds probes answer None, in-bounds probes the letter.
#[test]
fn get_probes() {
    let board = Board::parse(BOARD).unwrap();
    assert_eq!(board.get((-1, 0)), None);
    assert_eq!(board.get((0, -1)), None);
    assert_eq!(board.get((4, 0)), None);
    assert_eq!(board.get((0, 4)), None);
    assert_eq!(board.get((2, 2)), Some(b'k'));
}

// The error descriptions are stable.
#[test]
fn error_messages() {
    assert_eq!(Error::Usage.message(), "USAGE: boggle dictionary board");
    match Board::parse("ab\ncd") {
        Err(e) => assert!(!e.message().is_empty()),
        Ok(_) => panic!("a 2x2 board must be refused"),
    }
}

// Lines may end in CRLF; the carriage return is not part of the word.
#[test]
fn crlf_dictionary() {
    let board = Board::parse(BOARD).unwrap();
    assert_eq!(board.solve_single_threaded("abcd\r\nafkp\r\n").len(), 2);
    assert_eq!(board.solve_trie("abcd\r\nafkp\r\n").len(), 2);
}

// An empty dictionary finds nothing.
#[test]
fn empty_dictionary() {
    let board = Board::parse(BOARD).unwrap();
    assert_eq!(board.solve_single_threaded("").len(), 0);
    assert_eq!(board.solve_trie("").len(), 0);
}

// A dictionary line listed twice is reported twice by filter-then-verify
// and once by the trie sweep: the count equivalence asks for a
// duplicate-free dictionary.
#[test]
fn duplicate_lines() {
    let board = Board::parse(BOARD).unwrap();
    assert_eq!(board.solve_single_threaded("abcd\nabcd").len(), 2);
    assert_eq!(board.solve_trie("abcd\nabcd").len(), 1);
}
