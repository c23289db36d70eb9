//! What is made of the detector's and the engine's answers, of the clock and of
//! the settings at the start.
use crate::analysis::{
    analyse, capture_and_analyze_board, get_board, in_words, is_line, BoardAnalysisResult, QueryResult,
};
use crate::board::{same_board, Board, Camp, Changed};
use crate::clicks::SubBound;
use crate::common::{detections_to_board, lemma_one_board, shows, Detection, ModelSize};
use crate::context::{is_due, AnalysisContext, ChessboardState};
use crate::frame::Frame;
use crate::protocol::Phase;
use crate::startup::{answer_start, first_found, get_lib_path, none_found, LibPath, Probe};
use crate::worker::Worker;
use vstd::prelude::*;

verus! {

/// The board that is read is what the rules make of what was seen, for the side
/// that was seen or, if none was, the one that is known. There is none just if
/// none was seen.
pub proof fn law_board_is_fixed_for_the_side<F: Fn(Camp, Board) -> Board>(
    detections: &[Detection],
    require_board_outline: bool,
    known: &Camp,
    model: ModelSize,
    board_fix: F,
    seen: Result<(Camp, Board), String>,
    r: Option<(Camp, Board)>,
)
    requires
        call_ensures(detections_to_board, (detections, require_board_outline, model), seen),
        call_ensures(
            get_board::<F>,
            (detections, require_board_outline, known, model, board_fix),
            r,
        ),
    ensures
        match seen {
            Err(_) => r is None,
            Ok((camp, board)) => r matches Some((side, fixed)) && side == (if camp
                == Camp::Unknown {
                *known
            } else {
                camp
            }) && call_ensures(board_fix, (side, board), fixed),
        },
{
    if let Ok((camp, board)) = seen {
        let (side, fixed) = r->0;
        let read = choose|b: Board| #[trigger]
            shows(b, detections@, model) && call_ensures(board_fix, (side, b), fixed);
        lemma_one_board(read, board, detections@, model);
    }
}

/// A window is read like its boxes; the outline has to be seen while no part of
/// the window is watched.
pub proof fn law_window_is_read<F: Fn(Camp, Board) -> Board>(
    detections: &[Detection],
    window: &SubBound,
    known: &Camp,
    model: ModelSize,
    board_fix: F,
    seen: Result<(Camp, Board), String>,
    r: Option<(Camp, Board)>,
)
    requires
        call_ensures(detections_to_board, (detections, window.w == 0, model), seen),
        call_ensures(
            capture_and_analyze_board::<F>,
            (detections, window, known, model, board_fix),
            r,
        ),
    ensures
        match seen {
            Err(_) => r is None,
            Ok((camp, board)) => r matches Some((side, fixed)) && side == (if camp
                == Camp::Unknown {
                *known
            } else {
                camp
            }) && call_ensures(board_fix, (side, board), fixed),
        },
{
    if let Ok((camp, board)) = seen {
        let (side, fixed) = r->0;
        let read = choose|b: Board| #[trigger]
            shows(b, detections@, model) && call_ensures(board_fix, (side, b), fixed);
        lemma_one_board(read, board, detections@, model);
    }
}

/// The board after so many moves of a line.
pub open spec fn board_after(
    board: Board,
    pvs: Seq<String>,
    next: spec_fn(Board, String) -> Board,
    n: nat,
) -> Board
    decreases n,
{
    if n == 0 {
        board
    } else {
        next(board_after(board, pvs, next, (n - 1) as nat), pvs[n - 1])
    }
}

proof fn lemma_line<M: Fn(Board, &String) -> Board>(
    boards: Seq<Board>,
    board: Board,
    pvs: Seq<String>,
    board_move: M,
    next: spec_fn(Board, String) -> Board,
    n: nat,
)
    requires
        is_line(boards, board, pvs, board_move),
        forall|b: Board, pv: String, o: Board|
            #[trigger] call_ensures(board_move, (b, &pv), o) ==> o == next(b, pv),
        n < boards.len(),
    ensures
        boards[n as int] == board_after(board, pvs, next, n),
    decreases n,
{
    if n > 0 {
        lemma_line(boards, board, pvs, board_move, next, (n - 1) as nat);
        assert(call_ensures(board_move, (boards[n - 1], &pvs[n - 1]), boards[n - 1 + 1]));
    }
}

/// Where the rules always say the same, the first four moves of the engine's
/// line, or all of fewer, are put into words one after the other, each on the
/// board that the moves before it lead to. The first is expected, with the board
/// after it. Nothing else of the answer changes.
pub proof fn law_line_in_words<
    T,
    M: Fn(Board, &String) -> Board,
    C: Fn(Board, &String) -> String,
    P: Fn(&String, Board) -> Changed,
>(
    given: QueryResult<T>,
    board: Board,
    board_move: M,
    board_move_chinese: C,
    from_pv: P,
    next: spec_fn(Board, String) -> Board,
    say: spec_fn(Board, String) -> String,
    r: (QueryResult<T>, BoardAnalysisResult),
    i: nat,
)
    requires
        call_ensures(
            analyse::<T, M, C, P>,
            (given, board, board_move, board_move_chinese, from_pv),
            r,
        ),
        given.pvs@.len() > 0,
        forall|b: Board, pv: String, o: Board|
            #[trigger] call_ensures(board_move, (b, &pv), o) ==> o == next(b, pv),
        forall|b: Board, pv: String, o: String|
            #[trigger] call_ensures(board_move_chinese, (b, &pv), o) ==> o == say(b, pv),
    ensures
        r.0.pvs == given.pvs,
        r.0.rest == given.rest,
        r.0.moves@.len() == given.moves@.len() + if given.pvs@.len() < 4 {
            given.pvs@.len() as int
        } else {
            4
        },
        i < given.moves@.len() ==> r.0.moves@[i as int] == given.moves@[i as int],
        i < given.pvs@.len() && i < 4 ==> r.0.moves@[(given.moves@.len() + i) as int] == say(
            board_after(board, given.pvs@, next, i),
            given.pvs@[i as int],
        ),
        r.1.expect_board == next(board, given.pvs@[0]),
        call_ensures(from_pv, (&given.pvs@[0], board), r.1.expect_move),
{
    let (boards, words) = choose|boards: Seq<Board>, words: Seq<String>|
        {
            &&& #[trigger] is_line(boards, board, given.pvs@, board_move)
            &&& boards.len() > 1 ==> boards[1] == r.1.expect_board
            &&& #[trigger] in_words(words, boards, given.pvs@, board_move_chinese)
            &&& r.0.moves@ == given.moves@ + words
        };
    assert(call_ensures(board_move, (board, &given.pvs@[0]), r.1.expect_board));
    if i < given.pvs@.len() && i < 4 {
        lemma_line(boards, board, given.pvs@, board_move, next, i);
        assert(words[i as int] == r.0.moves@[(given.moves@.len() + i) as int]);
        assert(call_ensures(
            board_move_chinese,
            (boards[i as int], &given.pvs@[i as int]),
            words[i as int],
        ));
    }
}

/// Something is due if it was never done, or more than the pause ago.
pub proof fn law_due(last: Option<u128>, now: u128, pause: u128, r: bool)
    requires
        call_ensures(is_due, (last, now, pause), r),
    ensures
        match last {
            Some(time) => r <==> now - time > pause,
            None => r,
        },
{
}

/// The board may be looked for anew after two seconds.
pub proof fn law_search_is_due(context: &AnalysisContext, now: u128, r: bool)
    requires
        call_ensures(AnalysisContext::can_recalibrate, (context, now), r),
    ensures
        match context.last_recalibrate_time {
            Some(time) => r <==> now - time >= 2_000_000_000,
            None => r,
        },
{
}

/// A move that waits is overdue after more than three seconds.
pub proof fn law_overdue(context: &AnalysisContext, now: u128, r: bool)
    requires
        call_ensures(AnalysisContext::is_overdue, (context, now), r),
    ensures
        r <==> context.has_pending_click && context.last_action_time is Some && now
            - context.last_action_time->0 > 3_000_000_000,
{
}

/// A new watcher waits for its first look, knows of no game, has done nothing
/// yet, and counts the stillness of the board from now on.
pub proof fn law_new_watcher(now: u128, w: Worker, row: int, col: int)
    requires
        call_ensures(Worker::new, (now,), w),
        0 <= row < 10,
        0 <= col < 9,
    ensures
        w.phase == Phase::Waiting,
        w.state == ChessboardState::Initial,
        w.context.last_board@[row]@[col] == ' ',
        w.context.expect_board@[row]@[col] == ' ',
        w.context.expect_move.from@.len() == 0,
        w.context.expect_move.to@.len() == 0,
        w.context.invalid_change_count == 0,
        !w.context.has_pending_click,
        w.context.last_action_time is None,
        w.context.last_auto_match_time is None,
        w.context.last_recalibrate_time is None,
        w.context.last_board_change_time == now,
        w.context.last_invalid_click_time is None,
        w.context.current_camp == Camp::Unknown,
{
}

/// Two boards are the same just if all their cells are.
pub proof fn law_same_board(a: &Board, b: &Board, r: bool)
    requires
        call_ensures(same_board, (a, b), r),
    ensures
        r <==> forall|row: int, col: int|
            0 <= row < 10 && 0 <= col < 9 ==> #[trigger] a@[row]@[col] == b@[row]@[col],
{
    if forall|row: int, col: int|
        0 <= row < 10 && 0 <= col < 9 ==> #[trigger] a@[row]@[col] == b@[row]@[col] {
        assert forall|row: int| 0 <= row < 10 implies #[trigger] a@[row] == b@[row] by {
            assert(a@[row] =~= b@[row]);
        }
        assert(*a =~= *b);
    }
}

/// Red, green and blue are the first three of the four samples of a pixel, the
/// pixels being stored row by row.
pub proof fn law_pixel(frame: &Frame, x: u32, y: u32, r: (u8, u8, u8))
    requires
        call_ensures(Frame::rgb, (frame, x, y), r),
    ensures
        r.0 == frame.samples()[4 * (y * frame.width() + x)],
        r.1 == frame.samples()[4 * (y * frame.width() + x) + 1],
        r.2 == frame.samples()[4 * (y * frame.width() + x) + 2],
{
}

/// A picture is made of any samples that suffice for its size, and of no fewer;
/// its pixels are theirs, row by row.
pub proof fn law_picture(
    width: u32,
    height: u32,
    samples: Vec<u8>,
    made: Option<Frame>,
    x: u32,
    y: u32,
    colour: (u8, u8, u8),
)
    requires
        call_ensures(Frame::new, (width, height, samples), made),
        made matches Some(frame) ==> call_ensures(Frame::rgb, (&frame, x, y), colour),
    ensures
        made is Some <==> 4 * (width * height) <= samples@.len(),
        made matches Some(frame) ==> frame.width() == width && frame.height() == height && colour
            == (
            samples@[4 * (y * width + x)],
            samples@[4 * (y * width + x) + 1],
            samples@[4 * (y * width + x) + 2],
        ),
{
}

/// A request to watch is refused just while another one is under way.
pub proof fn law_refusal(busy: bool, r: Result<(), String>)
    requires
        call_ensures(answer_start, (busy,), r),
    ensures
        busy ==> (r matches Err(message) && message@ == "已经在监听中"@),
        !busy ==> r is Ok,
{
}

/// The engine's files are taken from the place that the bundle names if they are
/// there. If not, they are taken from the innermost ancestor of the program at
/// which they are, under it rather than beside it. If they are nowhere, the place
/// that the bundle names stands.
pub proof fn law_library(bundled: bool, ancestors: &[Probe], r: LibPath, i: int)
    requires
        call_ensures(get_lib_path, (bundled, ancestors), r),
        0 <= i < ancestors@.len(),
    ensures
        bundled ==> r == LibPath::Bundled,
        !bundled && ancestors@[i].inside ==> match r {
            LibPath::Bundled => false,
            LibPath::Inside(k) => k <= i,
            LibPath::Beside(k) => k < i,
        },
        !bundled && ancestors@[i].beside ==> match r {
            LibPath::Bundled => false,
            LibPath::Inside(k) => k <= i,
            LibPath::Beside(k) => k <= i,
        },
        r matches LibPath::Inside(k) ==> k < ancestors@.len() && ancestors@[k as int].inside,
        r matches LibPath::Beside(k) ==> k < ancestors@.len() && ancestors@[k as int].beside,
{
    match r {
        LibPath::Bundled => {
            assert(bundled || none_found(ancestors@));
        },
        LibPath::Inside(k) => {
            assert(first_found(ancestors@, k as int));
        },
        LibPath::Beside(k) => {
            assert(first_found(ancestors@, k as int));
        },
    }
}

} // verus!
