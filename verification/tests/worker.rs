use boardwatch::analysis::BoardAnalysisResult;
use boardwatch::board::{Board, BoardChangeState, Camp, Changed};
use boardwatch::context::{AnalysisContext, ChessboardState, Settings, SECOND};
use boardwatch::frame::Frame;
use boardwatch::protocol::{Effect, Input, Output, Reply, Request, Sighting};
use boardwatch::worker::Worker;

const IDLE: Settings = Settings { autoplay: false, auto_match: false };
const PLAY: Settings = Settings { autoplay: true, auto_match: false };
const MATCH: Settings = Settings { autoplay: false, auto_match: true };
const BOTH: Settings = Settings { autoplay: true, auto_match: true };

fn board(c: char) -> Board {
    let mut board = [[' '; 9]; 10];
    board[9][4] = c;
    board
}

fn sighting(camp: Camp, board: Board) -> Sighting {
    Sighting { camp, board, valid: true, startpos: false }
}

fn seen(camp: Camp, board: Board) -> Reply {
    Reply::Board { sighting: Some(sighting(camp, board)) }
}

fn opening(camp: Camp, board: Board) -> Reply {
    Reply::Board { sighting: Some(Sighting { camp, board, valid: true, startpos: true }) }
}

fn broken(camp: Camp, board: Board) -> Reply {
    Reply::Board { sighting: Some(Sighting { camp, board, valid: false, startpos: false }) }
}

const UNSEEN: Reply = Reply::Board { sighting: None };

fn changed(camp: Camp, from: &str, to: &str) -> Changed {
    Changed { camp, from: from.to_string(), to: to.to_string() }
}

fn suggestion(to: char) -> Reply {
    Reply::Analyzed {
        result: Some(BoardAnalysisResult {
            expect_move: changed(Camp::Red, "h2", "e2"),
            expect_board: board(to),
        }),
    }
}

fn difference(camp: Camp, state: BoardChangeState) -> Reply {
    Reply::Difference { changed: changed(camp, "b7", "e7"), state }
}

/// A screen without buttons.
fn dull() -> Reply {
    Reply::Screen { frame: Frame::new(0, 0, vec![]).unwrap() }
}

fn screen(colour: impl Fn(u32, u32) -> [u8; 4]) -> Reply {
    let mut samples: Vec<u8> = Vec::new();
    for y in 0..400 {
        for x in 0..400 {
            samples.extend_from_slice(&colour(x, y));
        }
    }
    Reply::Screen { frame: Frame::new(400, 400, samples).unwrap() }
}

/// A screen that offers to play again, at (199, 363).
fn over() -> Reply {
    screen(|x, y| {
        if (180..220).contains(&x) && (356..372).contains(&y) {
            [60, 180, 60, 255]
        } else {
            [90, 90, 90, 255]
        }
    })
}

/// A screen that announces a new rank, with the arrow at (30, 374).
fn promoted() -> Reply {
    screen(|x, y| {
        if (20..41).contains(&x) && (370..380).contains(&y) {
            [230, 200, 120, 255]
        } else {
            [10, 20, 120, 255]
        }
    })
}

fn step(w: &mut Worker, now: u128, settings: Settings, reply: Reply) -> Output {
    assert!(w.phase.is_met_by(&reply), "{:?} is not met by {:?}", w.phase, reply);
    w.step(Input { now: now * SECOND, settings, reply })
}

fn asks_board(out: &Output) -> Option<Camp> {
    match out.request {
        Request::Board { camp } if out.effects.is_empty() => Some(camp),
        _ => None,
    }
}

fn waits(out: &Output) -> bool {
    matches!(out.request, Request::Wait)
}

fn clicked(out: &Output) -> Option<(u32, u32)> {
    match out.effects.as_slice() {
        [Effect::Click { x, y }] => Some((*x, *y)),
        _ => None,
    }
}

/// A watcher in the middle of a game: red to move, having seen `board('a')` and
/// expecting `board('b')`.
fn playing() -> Worker {
    let mut w = Worker::new(0);
    step(&mut w, 0, IDLE, Reply::Tick);
    step(&mut w, 0, IDLE, seen(Camp::Red, board('a')));
    step(&mut w, 0, IDLE, suggestion('b'));
    assert_eq!(w.state, ChessboardState::OurTurn);
    w
}

/// The same, after the expected move was made with the mouse at `now`.
fn pending(now: u128) -> Worker {
    let mut w = Worker::new(0);
    step(&mut w, 0, PLAY, Reply::Tick);
    step(&mut w, 0, PLAY, seen(Camp::Red, board('a')));
    step(&mut w, 0, PLAY, suggestion('b'));
    step(&mut w, now, PLAY, Reply::Ready);
    assert!(w.context.has_pending_click);
    w
}

#[test]
fn a_new_watcher_knows_nothing() {
    let w = Worker::new(7);
    assert_eq!(w.state, ChessboardState::Initial);
    assert_eq!(w.context.last_board, [[' '; 9]; 10]);
    assert_eq!(w.context.expect_board, [[' '; 9]; 10]);
    assert_eq!(w.context.expect_move.from, "");
    assert_eq!(w.context.current_camp, Camp::Unknown);
    assert_eq!(w.context.last_board_change_time, 7);
    assert!(!w.context.has_pending_click);
    assert!(w.phase.is_met_by(&Reply::Tick));
    assert!(w.phase.is_met_by(&Reply::Stopped));
    assert!(!w.phase.is_met_by(&Reply::Ready));
}

#[test]
fn stopping_ends_the_watch() {
    let mut w = playing();
    let out = step(&mut w, 1, IDLE, Reply::Stopped);
    assert!(matches!(out.request, Request::Finish));
    assert!(out.effects.is_empty());
    assert!(!w.phase.is_met_by(&Reply::Tick));
    assert!(!w.phase.is_met_by(&Reply::Stopped));
}

#[test]
fn the_first_board_is_shown_and_analyzed() {
    let mut w = Worker::new(0);
    let out = step(&mut w, 1, IDLE, Reply::Tick);
    assert_eq!(asks_board(&out), Some(Camp::Unknown));
    let out = step(&mut w, 1, IDLE, seen(Camp::Black, board('a')));
    assert!(matches!(out.effects.as_slice(),
        [Effect::UpdateUi { camp: Camp::Black, board: b }] if *b == board('a')));
    assert!(matches!(out.request,
        Request::Analyze { camp: Camp::Black, board: b } if b == board('a')));
    let out = step(&mut w, 2, IDLE, suggestion('b'));
    assert!(waits(&out) && out.effects.is_empty());
    assert_eq!(w.state, ChessboardState::OpponentTurn);
    assert_eq!(w.context.last_board, board('a'));
    assert_eq!(w.context.expect_board, board('b'));
    assert_eq!(w.context.expect_move.to, "e2");
    assert_eq!(w.context.current_camp, Camp::Black);
    assert!(!w.context.has_pending_click);
}

#[test]
fn without_an_opinion_of_the_engine_nothing_is_expected() {
    let mut w = Worker::new(0);
    step(&mut w, 1, PLAY, Reply::Tick);
    step(&mut w, 1, PLAY, seen(Camp::Red, board('a')));
    let out = step(&mut w, 2, PLAY, Reply::Analyzed { result: None });
    assert!(waits(&out) && out.effects.is_empty());
    assert_eq!(w.state, ChessboardState::OurTurn);
    assert_eq!(w.context.expect_board, [[' '; 9]; 10]);
    assert!(!w.context.has_pending_click);
}

#[test]
fn the_suggested_move_is_made_if_asked_to() {
    let mut w = Worker::new(0);
    step(&mut w, 1, PLAY, Reply::Tick);
    step(&mut w, 1, PLAY, seen(Camp::Red, board('a')));
    let out = step(&mut w, 2, PLAY, suggestion('b'));
    assert!(matches!(out.effects.as_slice(),
        [Effect::Play { expect_move, camp: Camp::Red, linger: true }] if expect_move.from == "h2"));
    assert!(matches!(out.request, Request::Proceed));
    let out = step(&mut w, 4, PLAY, Reply::Ready);
    assert!(waits(&out) && out.effects.is_empty());
    assert!(w.context.has_pending_click);
    assert_eq!(w.context.last_action_time, Some(4 * SECOND));
    assert_eq!(w.state, ChessboardState::OurTurn);
}

#[test]
fn a_game_from_the_start_leads_to_the_start_state() {
    let mut w = Worker::new(0);
    step(&mut w, 1, IDLE, Reply::Tick);
    step(&mut w, 1, IDLE, opening(Camp::Red, board('s')));
    step(&mut w, 1, IDLE, Reply::Analyzed { result: None });
    assert_eq!(w.state, ChessboardState::StartPos);
    // The same board again: nothing to do.
    step(&mut w, 2, IDLE, Reply::Tick);
    let out = step(&mut w, 2, IDLE, opening(Camp::Red, board('s')));
    assert!(waits(&out) && out.effects.is_empty());
    assert_eq!(w.state, ChessboardState::StartPos);
    // Another reading of the start: the engine is asked anew.
    step(&mut w, 3, IDLE, Reply::Tick);
    let out = step(&mut w, 3, IDLE, opening(Camp::Red, board('t')));
    assert!(matches!(out.effects.as_slice(), [Effect::UpdateUi { .. }]));
    assert!(matches!(out.request, Request::Analyze { .. }));
    step(&mut w, 3, IDLE, suggestion('b'));
    assert_eq!(w.state, ChessboardState::OurTurn);
    assert_eq!(w.context.last_board, board('t'));
}

#[test]
fn the_other_side_may_begin() {
    let mut w = Worker::new(0);
    step(&mut w, 1, IDLE, Reply::Tick);
    step(&mut w, 1, IDLE, opening(Camp::Black, board('s')));
    step(&mut w, 1, IDLE, Reply::Analyzed { result: None });
    step(&mut w, 2, IDLE, Reply::Tick);
    let out = step(&mut w, 2, IDLE, opening(Camp::Black, board('s')));
    assert!(matches!(out.effects.as_slice(), [Effect::UpdateUi { camp: Camp::Black, .. }]));
    assert!(waits(&out));
    assert_eq!(w.state, ChessboardState::OpponentTurn);
}

#[test]
fn the_first_moves_are_compared_without_confirmation() {
    let mut w = Worker::new(0);
    step(&mut w, 1, IDLE, Reply::Tick);
    step(&mut w, 1, IDLE, opening(Camp::Red, board('s')));
    step(&mut w, 1, IDLE, Reply::Analyzed { result: None });
    step(&mut w, 2, IDLE, Reply::Tick);
    let out = step(&mut w, 2, IDLE, seen(Camp::Red, board('s')));
    assert!(waits(&out) && out.effects.is_empty());
    step(&mut w, 3, IDLE, Reply::Tick);
    let out = step(&mut w, 3, IDLE, seen(Camp::Red, board('a')));
    assert!(matches!(out.request,
        Request::Diff { last, board: b } if last == board('s') && b == board('a')));
    let out = step(&mut w, 3, IDLE, difference(Camp::Red, BoardChangeState::Move));
    assert!(matches!(out.effects.as_slice(), [Effect::Moved { changed }] if changed.from == "b7"));
    assert!(waits(&out));
    assert_eq!(w.state, ChessboardState::OurTurn);
    assert_eq!(w.context.last_board, board('a'));
}

#[test]
fn a_board_that_stays_the_same_is_left_alone() {
    let mut w = playing();
    for now in 1..5 {
        let out = step(&mut w, now, IDLE, Reply::Tick);
        assert_eq!(asks_board(&out), Some(Camp::Red));
        let out = step(&mut w, now, IDLE, seen(Camp::Unknown, board('a')));
        assert!(waits(&out) && out.effects.is_empty());
        assert_eq!(w.state, ChessboardState::OurTurn);
        assert_eq!(w.context.last_board_change_time, 0);
        assert_eq!(w.context.current_camp, Camp::Red);
    }
}

#[test]
fn the_expected_move_is_reported_and_the_turn_passes() {
    let mut w = playing();
    step(&mut w, 1, IDLE, Reply::Tick);
    let out = step(&mut w, 1, IDLE, seen(Camp::Red, board('b')));
    assert!(matches!(out.effects.as_slice(), [Effect::Moved { changed }] if changed.from == "h2"));
    assert!(waits(&out));
    assert_eq!(w.state, ChessboardState::OpponentTurn);
    assert_eq!(w.context.last_board, board('b'));
    assert_eq!(w.context.last_board_change_time, SECOND);
}

#[test]
fn the_answer_of_the_other_side_is_analyzed() {
    let mut w = playing();
    step(&mut w, 1, IDLE, Reply::Tick);
    let out = step(&mut w, 1, IDLE, seen(Camp::Red, board('c')));
    assert!(matches!(out.request, Request::Confirm { camp: Camp::Red }));
    assert!(out.effects.is_empty());
    let out = step(&mut w, 1, IDLE, Reply::Confirmed { board: Some(board('c')) });
    assert!(matches!(out.request,
        Request::Diff { last, board: b } if last == board('a') && b == board('c')));
    let out = step(&mut w, 1, IDLE, difference(Camp::Black, BoardChangeState::Move));
    assert!(matches!(out.effects.as_slice(), [Effect::Moved { .. }]));
    assert!(matches!(out.request,
        Request::Analyze { camp: Camp::Red, board: b } if b == board('c')));
    step(&mut w, 2, IDLE, suggestion('d'));
    assert_eq!(w.state, ChessboardState::OpponentTurn);
    assert_eq!(w.context.expect_board, board('d'));
}

#[test]
fn our_own_move_is_not_analyzed() {
    let mut w = playing();
    step(&mut w, 1, IDLE, Reply::Tick);
    step(&mut w, 1, IDLE, seen(Camp::Red, board('c')));
    step(&mut w, 1, IDLE, Reply::Confirmed { board: Some(board('c')) });
    let out = step(&mut w, 1, IDLE, difference(Camp::Red, BoardChangeState::Move));
    assert!(matches!(out.effects.as_slice(), [Effect::Moved { .. }]));
    assert!(waits(&out));
    assert_eq!(w.state, ChessboardState::OurTurn);
}

#[test]
fn a_board_that_does_not_hold_still_is_ignored() {
    for again in [None, Some(board('x'))] {
        let mut w = playing();
        step(&mut w, 1, IDLE, Reply::Tick);
        step(&mut w, 1, IDLE, seen(Camp::Red, board('c')));
        let out = step(&mut w, 1, IDLE, Reply::Confirmed { board: again });
        assert!(matches!(out.effects.as_slice(), [Effect::Rest]));
        assert!(waits(&out));
        assert_eq!(w.state, ChessboardState::OurTurn);
        assert_eq!(w.context.last_board, board('a'));
    }
}

#[test]
fn an_unknown_change_starts_from_nothing() {
    let mut w = playing();
    step(&mut w, 1, IDLE, Reply::Tick);
    step(&mut w, 1, IDLE, seen(Camp::Red, board('c')));
    step(&mut w, 1, IDLE, Reply::Confirmed { board: Some(board('c')) });
    let out = step(&mut w, 1, IDLE, difference(Camp::Red, BoardChangeState::Unknown));
    assert!(matches!(out.effects.as_slice(),
        [Effect::UpdateUi { camp: Camp::Red, board: b }] if *b == board('c')));
    assert!(waits(&out));
    assert_eq!(w.state, ChessboardState::Initial);
    assert_eq!(w.context.last_board, board('c'));
    // The side is found out anew.
    let out = step(&mut w, 2, IDLE, Reply::Tick);
    assert_eq!(asks_board(&out), Some(Camp::Unknown));
}

#[test]
fn three_impossible_changes_are_passed_over() {
    let mut w = playing();
    for round in 1..=4 {
        w.state = ChessboardState::OurTurn;
        step(&mut w, round, IDLE, Reply::Tick);
        step(&mut w, round, IDLE, seen(Camp::Red, board('c')));
        step(&mut w, round, IDLE, Reply::Confirmed { board: Some(board('c')) });
        let out = step(&mut w, round, IDLE, difference(Camp::Red, BoardChangeState::One));
        assert!(waits(&out) && out.effects.is_empty());
        assert_eq!(w.context.last_board, board('a'));
        if round < 4 {
            assert_eq!(w.state, ChessboardState::Invalid);
            assert_eq!(w.context.invalid_change_count, round as usize);
        } else {
            assert_eq!(w.state, ChessboardState::Initial);
            assert_eq!(w.context.invalid_change_count, 0);
        }
    }
}

#[test]
fn impossible_changes_go_round_in_fours() {
    let mut context = AnalysisContext::new(5);
    context.last_board = board('a');
    for _ in 0..3 {
        for count in [1, 2, 3] {
            assert_eq!(context.handle_invalid_change(), ChessboardState::Invalid);
            assert_eq!(context.invalid_change_count, count);
        }
        assert_eq!(context.handle_invalid_change(), ChessboardState::Initial);
        assert_eq!(context.invalid_change_count, 0);
    }
    assert_eq!(context.last_board, board('a'));
    assert_eq!(context.last_board_change_time, 5);
    assert!(!context.has_pending_click);
}

#[test]
fn with_autoplay_off_nothing_waits_at_the_end_of_a_look() {
    let mut w = pending(10);
    let replies: Vec<Reply> = vec![
        Reply::Tick,
        seen(Camp::Red, board('c')),
        Reply::Confirmed { board: Some(board('c')) },
        difference(Camp::Black, BoardChangeState::Move),
        suggestion('d'),
    ];
    for reply in replies {
        let out = step(&mut w, 20, IDLE, reply);
        assert!(!out.effects.iter().any(|effect| matches!(effect, Effect::Play { .. })));
        assert!(!w.context.has_pending_click);
        assert_eq!(w.context.last_action_time, None);
    }
}

#[test]
fn an_impossible_change_leads_back_to_the_beginning() {
    let mut w = playing();
    w.state = ChessboardState::Invalid;
    step(&mut w, 1, IDLE, Reply::Tick);
    let out = step(&mut w, 1, IDLE, seen(Camp::Red, board('c')));
    assert!(waits(&out) && out.effects.is_empty());
    assert_eq!(w.state, ChessboardState::Initial);
}

#[test]
fn a_board_that_is_not_seen_is_looked_for() {
    let mut w = playing();
    step(&mut w, 10, IDLE, Reply::Tick);
    let out = step(&mut w, 10, IDLE, UNSEEN);
    assert!(matches!(out.request, Request::Recalibrate));
    assert_eq!(w.context.last_recalibrate_time, Some(10 * SECOND));
    let out = step(&mut w, 10, IDLE, Reply::Recalibrated { success: true });
    assert_eq!(asks_board(&out), Some(Camp::Red));
    let out = step(&mut w, 10, IDLE, seen(Camp::Red, board('a')));
    assert!(waits(&out) && out.effects.is_empty());
}

#[test]
fn the_search_waits_two_seconds() {
    let mut w = playing();
    step(&mut w, 10, IDLE, Reply::Tick);
    step(&mut w, 10, IDLE, UNSEEN);
    let out = step(&mut w, 10, IDLE, Reply::Recalibrated { success: false });
    assert!(matches!(out.request, Request::WindowSize));
    step(&mut w, 10, IDLE, Reply::Size { width: 0, height: 0 });
    step(&mut w, 11, IDLE, Reply::Tick);
    let out = step(&mut w, 11, IDLE, UNSEEN);
    assert!(!matches!(out.request, Request::Recalibrate));
    step(&mut w, 11, IDLE, Reply::Size { width: 0, height: 0 });
    step(&mut w, 12, IDLE, Reply::Tick);
    let out = step(&mut w, 12, IDLE, UNSEEN);
    assert!(matches!(out.request, Request::Recalibrate));
}

#[test]
fn a_dialogue_is_clicked_away_every_six_seconds() {
    let mut w = playing();
    let mut clicks: Vec<u128> = Vec::new();
    for now in 1..=20 {
        step(&mut w, now, IDLE, Reply::Tick);
        let mut out = step(&mut w, now, IDLE, UNSEEN);
        if matches!(out.request, Request::Recalibrate) {
            out = step(&mut w, now, IDLE, Reply::Recalibrated { success: false });
        }
        if matches!(out.request, Request::WindowSize) {
            out = step(&mut w, now, IDLE, Reply::Size { width: 1080, height: 1920 });
            assert_eq!(clicked(&out), Some((540, 1280)));
            assert!(matches!(out.request, Request::Proceed));
            clicks.push(now);
            out = step(&mut w, now, IDLE, Reply::Ready);
        }
        assert!(waits(&out) && out.effects.is_empty());
    }
    assert_eq!(clicks, vec![1, 8, 15]);
}

#[test]
fn a_board_that_cannot_be_is_read_again() {
    let mut w = playing();
    step(&mut w, 10, IDLE, Reply::Tick);
    let out = step(&mut w, 10, IDLE, broken(Camp::Black, board('z')));
    assert!(matches!(out.request, Request::Recalibrate));
    assert_eq!(w.context.current_camp, Camp::Black);
    let out = step(&mut w, 10, IDLE, Reply::Recalibrated { success: true });
    assert_eq!(asks_board(&out), Some(Camp::Black));
    // The second reading does not tell the side any more.
    let out = step(&mut w, 10, IDLE, seen(Camp::Red, board('b')));
    assert!(matches!(out.effects.as_slice(), [Effect::Moved { .. }]));
    assert_eq!(w.context.current_camp, Camp::Black);
    assert_eq!(w.context.last_board, board('b'));
}

#[test]
fn a_board_that_still_cannot_be_is_uncovered() {
    for again in [UNSEEN, broken(Camp::Red, board('y'))] {
        let mut w = playing();
        step(&mut w, 10, IDLE, Reply::Tick);
        step(&mut w, 10, IDLE, broken(Camp::Red, board('z')));
        step(&mut w, 10, IDLE, Reply::Recalibrated { success: true });
        let out = step(&mut w, 10, IDLE, again);
        assert!(matches!(out.request, Request::WindowSize));
        assert_eq!(w.context.last_board, board('a'));
    }
}

#[test]
fn a_move_without_effect_is_made_again() {
    let mut w = pending(10);
    step(&mut w, 13, PLAY, Reply::Tick);
    let out = step(&mut w, 13, PLAY, seen(Camp::Red, board('a')));
    assert!(waits(&out) && out.effects.is_empty());
    step(&mut w, 14, PLAY, Reply::Tick);
    let out = step(&mut w, 14, PLAY, seen(Camp::Black, board('a')));
    assert!(matches!(out.effects.as_slice(),
        [Effect::Play { expect_move, camp: Camp::Black, linger: false }] if expect_move.to == "e2"));
    assert!(matches!(out.request, Request::Proceed));
    let out = step(&mut w, 15, PLAY, Reply::Ready);
    assert!(waits(&out) && out.effects.is_empty());
    assert!(w.context.has_pending_click);
    assert_eq!(w.context.last_action_time, Some(15 * SECOND));
}

#[test]
fn a_move_that_takes_effect_does_not_wait_any_more() {
    let mut w = pending(10);
    step(&mut w, 20, PLAY, Reply::Tick);
    let out = step(&mut w, 20, PLAY, seen(Camp::Red, board('b')));
    assert!(matches!(out.effects.as_slice(), [Effect::Moved { .. }]));
    assert!(!w.context.has_pending_click);
    assert_eq!(w.context.last_action_time, None);
}

#[test]
fn switching_autoplay_off_forgets_the_move() {
    let mut w = pending(10);
    step(&mut w, 20, IDLE, Reply::Tick);
    assert!(!w.context.has_pending_click);
    assert_eq!(w.context.last_action_time, None);
    let out = step(&mut w, 20, IDLE, seen(Camp::Red, board('a')));
    assert!(waits(&out) && out.effects.is_empty());
}

#[test]
fn a_move_without_effect_may_mean_that_the_game_is_over() {
    let mut w = pending(10);
    step(&mut w, 11, PLAY, Reply::Tick);
    step(&mut w, 14, BOTH, seen(Camp::Red, board('a')));
    let out = step(&mut w, 15, BOTH, over());
    assert_eq!(clicked(&out), Some((199, 363)));
    assert!(matches!(out.request, Request::Proceed));
    let out = step(&mut w, 16, BOTH, Reply::Ready);
    assert!(waits(&out) && out.effects.is_empty());
    assert!(!w.context.has_pending_click);
    assert_eq!(w.context.last_auto_match_time, Some(16 * SECOND));
    assert_eq!(w.state, ChessboardState::Initial);
}

#[test]
fn a_move_without_effect_may_mean_a_new_rank() {
    let mut w = pending(10);
    step(&mut w, 11, PLAY, Reply::Tick);
    step(&mut w, 14, BOTH, seen(Camp::Red, board('a')));
    let out = step(&mut w, 15, BOTH, promoted());
    assert_eq!(clicked(&out), Some((30, 374)));
    step(&mut w, 16, BOTH, Reply::Ready);
    assert!(!w.context.has_pending_click);
    assert_eq!(w.context.last_auto_match_time, Some(16 * SECOND));
    assert_eq!(w.state, ChessboardState::OurTurn);
}

#[test]
fn a_move_without_effect_is_made_again_if_the_game_goes_on() {
    let mut w = pending(10);
    step(&mut w, 11, PLAY, Reply::Tick);
    let out = step(&mut w, 14, BOTH, seen(Camp::Red, board('a')));
    assert!(matches!(out.request, Request::Screen));
    let out = step(&mut w, 15, BOTH, dull());
    assert!(matches!(out.effects.as_slice(), [Effect::Play { linger: false, .. }]));
    step(&mut w, 17, BOTH, Reply::Ready);
    assert_eq!(w.context.last_action_time, Some(17 * SECOND));
}

#[test]
fn buttons_are_looked_for_between_games() {
    let mut w = Worker::new(0);
    let out = step(&mut w, 1, MATCH, Reply::Tick);
    assert!(matches!(out.request, Request::Screen));
    let out = step(&mut w, 2, MATCH, dull());
    assert_eq!(asks_board(&out), Some(Camp::Unknown));
    assert_eq!(w.context.last_auto_match_time, Some(SECOND));
}

#[test]
fn routine_looks_are_six_seconds_apart() {
    let mut w = Worker::new(0);
    let mut looks: Vec<u128> = Vec::new();
    for now in 1..=20 {
        let mut out = step(&mut w, now, MATCH, Reply::Tick);
        if matches!(out.request, Request::Screen) {
            looks.push(now);
            out = step(&mut w, now, MATCH, dull());
        }
        assert!(asks_board(&out).is_some());
        step(&mut w, now, MATCH, seen(Camp::Red, board('a')));
        step(&mut w, now, MATCH, Reply::Analyzed { result: None });
        w.state = ChessboardState::Initial;
    }
    assert_eq!(looks, vec![1, 8, 15]);
}

#[test]
fn a_game_in_play_is_not_disturbed() {
    let mut w = playing();
    let out = step(&mut w, 12, MATCH, Reply::Tick);
    assert_eq!(asks_board(&out), Some(Camp::Red));
    step(&mut w, 12, MATCH, seen(Camp::Red, board('a')));
    let out = step(&mut w, 13, MATCH, Reply::Tick);
    assert!(matches!(out.request, Request::Screen));
}

#[test]
fn with_auto_match_off_no_buttons_are_looked_for() {
    // Between games, without a board, and with a move that waits too long.
    let mut w = Worker::new(0);
    for now in [1, 20, 40] {
        assert!(asks_board(&step(&mut w, now, IDLE, Reply::Tick)).is_some());
        step(&mut w, now, IDLE, UNSEEN);
        let out = step(&mut w, now, IDLE, Reply::Recalibrated { success: false });
        assert!(matches!(out.request, Request::WindowSize));
        let out = step(&mut w, now, IDLE, Reply::Size { width: 1, height: 1 });
        assert!(waits(&out));
    }
    let mut w = pending(10);
    assert!(asks_board(&step(&mut w, 60, PLAY, Reply::Tick)).is_some());
    let out = step(&mut w, 60, PLAY, seen(Camp::Red, board('a')));
    assert!(matches!(out.request, Request::Proceed));
}

#[test]
fn the_offer_to_play_again_is_taken() {
    let mut w = Worker::new(0);
    step(&mut w, 1, MATCH, Reply::Tick);
    let out = step(&mut w, 2, MATCH, over());
    assert_eq!(clicked(&out), Some((199, 363)));
    assert!(waits(&out));
    assert_eq!(w.context.last_auto_match_time, Some(SECOND));
    assert_eq!(w.state, ChessboardState::Initial);
}

#[test]
fn the_announcement_of_a_rank_is_left() {
    let mut w = pending(0);
    step(&mut w, 30, BOTH, Reply::Tick);
    let out = step(&mut w, 31, BOTH, promoted());
    assert_eq!(clicked(&out), Some((30, 374)));
    assert!(waits(&out));
    assert_eq!(w.context.last_auto_match_time, Some(30 * SECOND));
    assert_eq!(w.state, ChessboardState::OurTurn);
    assert!(w.context.has_pending_click);
}

#[test]
fn a_new_game_forgets_the_move() {
    let mut w = pending(0);
    step(&mut w, 30, BOTH, Reply::Tick);
    step(&mut w, 31, BOTH, over());
    assert_eq!(w.state, ChessboardState::Initial);
    assert!(!w.context.has_pending_click);
}

#[test]
fn without_a_board_buttons_are_looked_for() {
    let mut w = playing();
    step(&mut w, 1, MATCH, Reply::Tick);
    step(&mut w, 1, MATCH, UNSEEN);
    step(&mut w, 1, MATCH, Reply::Recalibrated { success: false });
    step(&mut w, 1, MATCH, Reply::Size { width: 1080, height: 1920 });
    let out = step(&mut w, 2, MATCH, Reply::Ready);
    assert!(matches!(out.request, Request::Screen));
    let out = step(&mut w, 3, MATCH, over());
    assert_eq!(clicked(&out), Some((199, 363)));
    assert!(waits(&out));
    assert_eq!(w.context.last_auto_match_time, Some(2 * SECOND));
    assert_eq!(w.state, ChessboardState::Initial);
}

#[test]
fn a_look_for_buttons_without_a_board_finds_nothing() {
    let mut w = playing();
    step(&mut w, 1, MATCH, Reply::Tick);
    step(&mut w, 1, MATCH, UNSEEN);
    step(&mut w, 1, MATCH, Reply::Recalibrated { success: false });
    let out = step(&mut w, 1, MATCH, Reply::Size { width: 1, height: 1 });
    assert!(matches!(out.request, Request::Screen));
    let out = step(&mut w, 1, MATCH, dull());
    assert!(waits(&out) && out.effects.is_empty());
    assert_eq!(w.context.last_auto_match_time, None);
}

#[test]
fn without_a_board_looks_for_buttons_are_five_seconds_apart() {
    let mut w = playing();
    w.context.last_auto_match_time = Some(10 * SECOND);
    w.context.last_invalid_click_time = Some(10 * SECOND);
    w.context.last_recalibrate_time = Some(14 * SECOND);
    w.context.last_board_change_time = 14 * SECOND;
    step(&mut w, 15, MATCH, Reply::Tick);
    let out = step(&mut w, 15, MATCH, UNSEEN);
    assert!(waits(&out) && out.effects.is_empty());
    w.context.last_recalibrate_time = Some(15 * SECOND);
    step(&mut w, 16, MATCH, Reply::Tick);
    let out = step(&mut w, 16, MATCH, UNSEEN);
    assert!(matches!(out.request, Request::Screen));
}

#[test]
fn every_look_ends() {
    // The longest way through a look at the screen.
    let mut w = pending(0);
    w.context.last_recalibrate_time = None;
    let replies: Vec<(u128, Reply)> = vec![
        (20, Reply::Tick),
        (20, dull()),
        (20, UNSEEN),
        (20, Reply::Recalibrated { success: true }),
        (23, broken(Camp::Red, board('z'))),
        (23, Reply::Recalibrated { success: true }),
        (23, seen(Camp::Red, board('c'))),
        (23, dull()),
        (23, Reply::Ready),
        (23, Reply::Confirmed { board: Some(board('c')) }),
        (23, difference(Camp::Black, BoardChangeState::Move)),
        (23, suggestion('d')),
        (24, Reply::Ready),
    ];
    let count = replies.len();
    for (i, (now, reply)) in replies.into_iter().enumerate() {
        let out = step(&mut w, now, BOTH, reply);
        assert_eq!(waits(&out), i + 1 == count, "step {i}");
    }
}
