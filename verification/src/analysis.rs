//! Reading a board off a screenshot's detections, and reading an engine's answer.
//!
//! The rules of the game are not part of this library. Where they are needed,
//! the functions here take them as arguments, and are verified for whatever
//! rules they are given.
use crate::board::{Board, Camp, Changed};
use crate::clicks::SubBound;
use crate::common::{camp_seen, detections_to_board, has_outline, shows, Detection, ModelSize};
use vstd::prelude::*;

verus! {

/// The side at the bottom of the board: what was seen or, where nothing tells,
/// what is known from before.
pub open spec fn camp_of(seen: Camp, known: Camp) -> Camp {
    if seen == Camp::Unknown {
        known
    } else {
        seen
    }
}

/// A side that is known is never forgotten, and what is seen comes before what
/// was known.
pub proof fn lemma_camp_is_kept(seen: Camp, known: Camp)
    ensures
        known != Camp::Unknown ==> camp_of(seen, known) != Camp::Unknown,
        seen != Camp::Unknown ==> camp_of(seen, known) == seen,
        camp_of(seen, camp_of(seen, known)) == camp_of(seen, known),
{
}

/// Reads the board off the detections; `board_fix` is the rules' correction of
/// what was read. There is none where the outline of the board is asked for and
/// was not seen.
pub fn get_board<F: Fn(Camp, Board) -> Board>(
    detections: &[Detection],
    require_board_outline: bool,
    tracked_camp: &Camp,
    model: ModelSize,
    board_fix: F,
) -> (r: Option<(Camp, Board)>)
    requires
        model.valid(),
        forall|camp: Camp, board: Board| #[trigger] call_requires(board_fix, (camp, board)),
    ensures
        r is Some <==> !require_board_outline || has_outline(detections@),
        r matches Some((camp, board)) ==> {
            &&& camp == camp_of(camp_seen(detections@, model), *tracked_camp)
            &&& exists|seen: Board| #[trigger]
                shows(seen, detections@, model) && call_ensures(board_fix, (camp, seen), board)
        },
{
    match detections_to_board(detections, require_board_outline, model) {
        Ok((seen_camp, seen)) => {
            let camp = if seen_camp == Camp::Unknown {
                *tracked_camp
            } else {
                seen_camp
            };
            Some((camp, board_fix(camp, seen)))
        },
        Err(_) => None,
    }
}

/// Reads the board off the detections of a captured window. While the part of
/// the window that shows the board is not known, its outline has to be seen.
pub fn capture_and_analyze_board<F: Fn(Camp, Board) -> Board>(
    detections: &[Detection],
    window: &SubBound,
    current_camp: &Camp,
    model: ModelSize,
    board_fix: F,
) -> (r: Option<(Camp, Board)>)
    requires
        model.valid(),
        forall|camp: Camp, board: Board| #[trigger] call_requires(board_fix, (camp, board)),
    ensures
        r is Some <==> window.w != 0 || has_outline(detections@),
        r matches Some((camp, board)) ==> {
            &&& camp == camp_of(camp_seen(detections@, model), *current_camp)
            &&& exists|seen: Board| #[trigger]
                shows(seen, detections@, model) && call_ensures(board_fix, (camp, seen), board)
        },
{
    get_board(detections, window.w == 0, current_camp, model, board_fix)
}

/// What the engine answers: the best line of play, the same moves in words, and
/// whatever else it has to say.
#[derive(Debug)]
pub struct QueryResult<T> {
    pub pvs: Vec<String>,
    pub moves: Vec<String>,
    pub rest: T,
}

/// What an analysis of a board leads to: the move that is expected next, and the
/// board after it.
#[derive(Debug)]
pub struct BoardAnalysisResult {
    pub expect_move: Changed,
    pub expect_board: Board,
}

/// How many moves of a line are put into words.
pub open spec fn told(pvs: Seq<String>) -> int {
    if pvs.len() < 4 {
        pvs.len() as int
    } else {
        4
    }
}

/// Whether `boards` are the boards of a line of play: the first is where it
/// starts, and each move leads from its board to the next.
pub open spec fn is_line<M: Fn(Board, &String) -> Board>(
    boards: Seq<Board>,
    start: Board,
    pvs: Seq<String>,
    board_move: M,
) -> bool {
    &&& boards.len() == told(pvs)
    &&& boards.len() > 0
    &&& boards[0] == start
    &&& forall|i: int|
        #![trigger boards[i]]
        0 <= i < boards.len() - 1 ==> call_ensures(board_move, (boards[i], &pvs[i]), boards[i + 1])
}

/// Whether `words` are the moves of a line, each put into words on its own
/// board.
pub open spec fn in_words<C: Fn(Board, &String) -> String>(
    words: Seq<String>,
    boards: Seq<Board>,
    pvs: Seq<String>,
    board_move_chinese: C,
) -> bool {
    &&& words.len() == boards.len()
    &&& forall|i: int|
        #![trigger words[i]]
        0 <= i < words.len() ==> call_ensures(board_move_chinese, (boards[i], &pvs[i]), words[i])
}

/// Reads the engine's answer for `board`: the first four moves of its line are
/// put into words, and the first of them is what is expected next.
pub fn analyse<
    T,
    M: Fn(Board, &String) -> Board,
    C: Fn(Board, &String) -> String,
    P: Fn(&String, Board) -> Changed,
>(result: QueryResult<T>, board: Board, board_move: M, board_move_chinese: C, from_pv: P) -> (r:
    (QueryResult<T>, BoardAnalysisResult))
    requires
        result.pvs@.len() > 0,
        forall|b: Board, pv: &String| #[trigger] call_requires(board_move, (b, pv)),
        forall|b: Board, pv: &String| #[trigger] call_requires(board_move_chinese, (b, pv)),
        forall|b: Board, pv: &String| #[trigger] call_requires(from_pv, (pv, b)),
    ensures
        r.0.pvs == result.pvs,
        r.0.rest == result.rest,
        call_ensures(from_pv, (&result.pvs@[0], board), r.1.expect_move),
        call_ensures(board_move, (board, &result.pvs@[0]), r.1.expect_board),
        exists|boards: Seq<Board>, words: Seq<String>|
            {
                &&& #[trigger] is_line(boards, board, result.pvs@, board_move)
                &&& boards.len() > 1 ==> boards[1] == r.1.expect_board
                &&& #[trigger] in_words(words, boards, result.pvs@, board_move_chinese)
                &&& r.0.moves@ == result.moves@ + words
            },
{
    let mut result = result;
    let ghost given = result.pvs;
    let ghost rest = result.rest;
    let ghost pvs = result.pvs@;
    let ghost before = result.moves@;
    let best_move = board_move_chinese(board, &result.pvs[0]);
    let expect_board = board_move(board, &result.pvs[0]);
    let expect_move = from_pv(&result.pvs[0], board);
    let ghost mut boards: Seq<Board> = seq![board];
    let ghost mut words: Seq<String> = seq![best_move];
    result.moves.push(best_move);
    let mut current = expect_board;
    let mut i: usize = 1;
    while i < result.pvs.len() && i < 4
        invariant
            1 <= i <= told(pvs),
            result.pvs == given,
            result.rest == rest,
            result.pvs@ == pvs,
            forall|b: Board, pv: &String| #[trigger] call_requires(board_move, (b, pv)),
            forall|b: Board, pv: &String| #[trigger] call_requires(board_move_chinese, (b, pv)),
            boards.len() == i,
            boards[0] == board,
            boards.len() > 1 ==> boards[1] == expect_board,
            i == 1 ==> current == expect_board,
            call_ensures(board_move, (boards[i - 1], &pvs[i - 1]), current),
            forall|k: int|
                #![trigger boards[k]]
                0 <= k < i - 1 ==> call_ensures(board_move, (boards[k], &pvs[k]), boards[k + 1]),
            in_words(words, boards, pvs, board_move_chinese),
            result.moves@ == before + words,
        decreases 4 - i,
    {
        let word = board_move_chinese(current, &result.pvs[i]);
        proof {
            boards = boards.push(current);
            words = words.push(word);
        }
        result.moves.push(word);
        assert(result.moves@ =~= before + words);
        current = board_move(current, &result.pvs[i]);
        i = i + 1;
    }
    assert(is_line(boards, board, pvs, board_move));
    (result, BoardAnalysisResult { expect_move, expect_board })
}

} // verus!
