use boardwatch::analysis::{analyse, capture_and_analyze_board, get_board, QueryResult};
use boardwatch::board::{blank_board, same_board, Board, Camp, Changed};
use boardwatch::clicks::SubBound;
use boardwatch::common::{Detection, ModelSize};
use boardwatch::context::{is_due, SECOND};
use boardwatch::single::Single;
use boardwatch::startup::{answer_start, get_lib_path, LibPath, Probe};

const MODEL: ModelSize = ModelSize { width: 640, height: 640 };

fn detection(label: char, x: f32, y: f32) -> Detection {
    let bits = |v: f32| Single::from_bits(v.to_bits());
    Detection { label, x0: bits(x), y0: bits(y), x1: bits(x), y1: bits(y) }
}

/// A rule that writes the side into the first cell.
fn mark(camp: Camp, board: Board) -> Board {
    let mut board = board;
    board[0][0] = match camp {
        Camp::Red => 'r',
        Camp::Black => 'b',
        Camp::Unknown => '?',
    };
    board
}

#[test]
fn the_board_is_corrected_by_the_rules() {
    let seen = [detection('K', 320.0, 630.0), detection('p', 100.0, 100.0)];
    let (camp, board) = get_board(&seen, false, &Camp::Black, MODEL, mark).unwrap();
    assert_eq!(camp, Camp::Red);
    assert_eq!(board[0][0], 'r');
    assert_eq!(board[9][4], 'K');
    assert_eq!(board[1][1], 'p');
}

#[test]
fn a_known_side_stands_in_for_one_not_seen() {
    let seen = [detection('p', 100.0, 100.0)];
    for known in [Camp::Red, Camp::Black, Camp::Unknown] {
        let (camp, board) = get_board(&seen, false, &known, MODEL, mark).unwrap();
        assert_eq!(camp, known);
        assert_eq!(board, mark(known, { let mut b = blank_board(); b[1][1] = 'p'; b }));
    }
}

#[test]
fn a_board_without_its_outline_is_none_if_that_is_asked_for() {
    let seen = [detection('p', 100.0, 100.0)];
    assert!(get_board(&seen, true, &Camp::Red, MODEL, mark).is_none());
    let window = |w: u32| SubBound { x: 0, y: 0, w, h: 10 };
    assert!(capture_and_analyze_board(&seen, &window(0), &Camp::Red, MODEL, mark).is_none());
    assert!(capture_and_analyze_board(&seen, &window(1), &Camp::Red, MODEL, mark).is_some());
    let outlined = [detection('p', 100.0, 100.0), detection('0', 0.0, 0.0)];
    assert!(capture_and_analyze_board(&outlined, &window(0), &Camp::Red, MODEL, mark).is_some());
}

/// A rule by which each move writes its last character into the first cell.
fn advance(board: Board, pv: &String) -> Board {
    let mut board = board;
    board[0][0] = pv.chars().last().unwrap();
    board
}

fn words(board: Board, pv: &String) -> String {
    format!("{} on {}", pv, board[0][0])
}

fn first(pv: &String, board: Board) -> Changed {
    Changed { camp: Camp::Red, from: pv[..2].to_string(), to: format!("{}{}", &pv[2..], board[0][0]) }
}

fn answer(pvs: &[&str], moves: &[&str]) -> QueryResult<i32> {
    QueryResult {
        pvs: pvs.iter().map(|s| s.to_string()).collect(),
        moves: moves.iter().map(|s| s.to_string()).collect(),
        rest: 77,
    }
}

#[test]
fn four_moves_of_a_line_are_put_into_words() {
    let mut board = blank_board();
    board[0][0] = 'o';
    let given = answer(&["a0a1", "b0b2", "c0c3", "d0d4", "e0e5"], &[]);
    let (result, expected) = analyse(given, board, advance, words, first);
    assert_eq!(result.moves, vec!["a0a1 on o", "b0b2 on 1", "c0c3 on 2", "d0d4 on 3"]);
    assert_eq!(result.pvs, vec!["a0a1", "b0b2", "c0c3", "d0d4", "e0e5"]);
    assert_eq!(result.rest, 77);
    assert_eq!(expected.expect_move.from, "a0");
    assert_eq!(expected.expect_move.to, "a1o");
    assert_eq!(expected.expect_board[0][0], '1');
}

#[test]
fn a_short_line_is_put_into_words_whole() {
    let given = answer(&["a0a1"], &["before"]);
    let (result, expected) = analyse(given, blank_board(), advance, words, first);
    assert_eq!(result.moves, vec!["before", "a0a1 on  "]);
    assert_eq!(expected.expect_board[0][0], '1');
}

#[test]
fn boards_are_compared_cell_by_cell() {
    assert!(same_board(&blank_board(), &[[' '; 9]; 10]));
    for row in 0..10 {
        for col in 0..9 {
            let mut board = blank_board();
            board[row][col] = 'x';
            assert!(!same_board(&board, &blank_board()));
            assert!(same_board(&board, &board));
        }
    }
}

#[test]
fn only_black_is_black() {
    assert!(Camp::Black.is_black());
    assert!(!Camp::Red.is_black());
    assert!(!Camp::Unknown.is_black());
}

#[test]
fn something_is_due_after_its_pause() {
    assert!(is_due(None, 0, 6 * SECOND));
    assert!(!is_due(Some(10 * SECOND), 16 * SECOND, 6 * SECOND));
    assert!(is_due(Some(10 * SECOND), 16 * SECOND + 1, 6 * SECOND));
    assert!(!is_due(Some(10 * SECOND), 5 * SECOND, 0));
}

#[test]
fn there_is_one_watcher_at_a_time() {
    assert_eq!(answer_start(false), Ok(()));
    assert_eq!(answer_start(true), Err("已经在监听中".to_string()));
}

#[test]
fn the_files_of_the_engine_are_found() {
    let no = Probe { inside: false, beside: false };
    let inside = Probe { inside: true, beside: false };
    let beside = Probe { inside: false, beside: true };
    let both = Probe { inside: true, beside: true };
    assert_eq!(get_lib_path(true, &[inside]), LibPath::Bundled);
    assert_eq!(get_lib_path(false, &[]), LibPath::Bundled);
    assert_eq!(get_lib_path(false, &[no, no]), LibPath::Bundled);
    assert_eq!(get_lib_path(false, &[no, beside, inside]), LibPath::Beside(1));
    assert_eq!(get_lib_path(false, &[no, no, both]), LibPath::Inside(2));
    assert_eq!(get_lib_path(false, &[inside, beside]), LibPath::Inside(0));
}
