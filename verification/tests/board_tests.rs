use boggle::board::Board;

const BOARD: &str = "abcd\nefgh\nijkl\nmnop";

#[test]
fn parse() {
    let board = Board::parse(BOARD).unwrap();
    assert_eq!(board.len(), 4);
    assert_eq!(board.get((0, 0)), Some(b'a'));
    assert_eq!(board.get((0, 3)), Some(b'd'));
    assert_eq!(board.get((3, 3)), Some(b'p'));
    assert_eq!(board.get((0, 1)), Some(b'b'));
    assert_eq!(board.get((1, 0)), Some(b'e'));
}

#[test]
fn neighbors_edge() {
    let board = Board::parse(BOARD).unwrap();
    let mut neighbors: Vec<_> = board.neighbors((0, 0));
    neighbors.sort();
    assert_eq!(neighbors, vec![(0, 1), (1, 0), (1, 1)]);

    let mut neighbors: Vec<_> = board.neighbors((3, 3));
    neighbors.sort();
    assert_eq!(neighbors, vec![(2, 2), (2, 3), (3, 2)]);
}

#[test]
fn neighbors() {
    let board = Board::parse(BOARD).unwrap();
    let mut neighbors: Vec<_> = board.neighbors((1, 1));
    assert_eq!(board.get((1, 1)), Some(b'f'));
    neighbors.sort();
    assert_eq!(
        neighbors,
        vec![(0, 0), (0, 1), (0, 2), (1, 0), (1, 2), (2, 0), (2, 1), (2, 2)]
    );
}

#[test]
fn has_word() {
    let board = Board::parse(BOARD).unwrap();
    assert!(board.has_word(b"abcd"));
    assert!(board.has_word(b"dcba"));
    assert!(board.has_word(b"afkp"));
    assert!(board.has_word(b"pkfa"));
    assert!(board.has_word(b"mjgd"));
    assert!(board.has_word(b"dgjm"));
    assert!(board.has_word(b"aeim"));
    assert!(board.has_word(b"miea"));
    assert!(board.has_word(b"aefb"));
    assert!(board.has_word(b"bfea"));

    assert!(!board.has_word(b"lies"));
    assert!(!board.has_word(b"mapb"));
}

const DICTIONARY: &str = "abcd\nafkp\nlies\nmapb\nabef\nxyz\nzzzz\nmine\nplonk";
const BOARD1: &str = "abcd\nefgh\nijkl\nmnop";

// "abcd" is a row, "afkp" the main diagonal, "abef" a bent path,
// "plonk" snakes through the bottom-right corner; "lies" and "mapb"
// break adjacency, "xyz" is
// too short, "zzzz" uses a letter the board lacks, and "mine" strands
// its final letter.
#[test]
fn single_threaded() {
    let board = Board::parse(BOARD1).unwrap();
    let found = board.solve_single_threaded(DICTIONARY);
    assert_eq!(found.len(), 4);
    assert_eq!(
        found,
        vec![b"abcd".to_vec(), b"afkp".to_vec(), b"abef".to_vec(), b"plonk".to_vec()]
    );
}

#[test]
fn trie() {
    let board = Board::parse(BOARD1).unwrap();
    let found = board.solve_trie(DICTIONARY);
    assert_eq!(found.len(), 4);
    let mut sorted = found.clone();
    sorted.sort();
    assert_eq!(
        sorted,
        vec![b"abcd".to_vec(), b"abef".to_vec(), b"afkp".to_vec(), b"plonk".to_vec()]
    );
}
