//! What the watcher does with each answer, said of what it knows and what it is
//! told, one situation at a time.
//!
//! Nothing here is said in the words that the watcher itself is put together
//! from. Times are in nanoseconds.
use crate::board::{BoardChangeState, Camp, Changed};
use crate::buttons::{button_on, Button};
use crate::context::{AnalysisContext, ChessboardState};
use crate::frame::Frame;
use crate::protocol::{Effect, Input, Phase, Reply, Request, Sighting};
use crate::worker::{follow, judge, transition, uncover, Step, Worker};
use vstd::prelude::*;

verus! {

/// Whether more than this many seconds have passed since the time, or there is
/// none.
pub open spec fn passed(last: Option<u128>, now: u128, seconds: int) -> bool {
    match last {
        Some(time) => now - time > seconds * 1_000_000_000,
        None => true,
    }
}

/// Whether the board was looked for less than two seconds ago.
pub open spec fn just_searched(context: AnalysisContext, now: u128) -> bool {
    context.last_recalibrate_time matches Some(time) && now - time < 2_000_000_000
}

/// The context once the side at the bottom was seen.
pub open spec fn with_side(context: AnalysisContext, seen: Camp) -> AnalysisContext {
    AnalysisContext {
        current_camp: if seen == Camp::Unknown {
            context.current_camp
        } else {
            seen
        },
        ..context
    }
}

/// The context once no move waits any more.
pub open spec fn idle(context: AnalysisContext) -> AnalysisContext {
    AnalysisContext { has_pending_click: false, last_action_time: None, ..context }
}

/// A look begins, and buttons are looked for first: if games are to follow each
/// other, they were not looked for in the last six seconds, and no game is known
/// or its board has not changed for twelve seconds. With autoplay off, no move
/// waits any more.
pub proof fn rule_buttons_first(w: Worker, input: Input)
    requires
        w.phase is Waiting,
        input.reply is Tick,
        input.settings.auto_match,
        passed(w.context.last_auto_match_time, input.now, 6),
        w.state == ChessboardState::Initial || input.now - w.context.last_board_change_time
            > 12_000_000_000,
    ensures
        transition(w, input) == (Step {
            worker: Worker {
                context: if input.settings.autoplay {
                    w.context
                } else {
                    idle(w.context)
                },
                state: w.state,
                phase: Phase::Routine { asked: input.now },
            },
            effects: Seq::empty(),
            request: Request::Screen,
        }),
{
}

/// A look begins with the board in all other situations. The side is asked for
/// anew if no game is known.
pub proof fn rule_board_first(w: Worker, input: Input)
    requires
        w.phase is Waiting,
        input.reply is Tick,
        !input.settings.auto_match || !passed(w.context.last_auto_match_time, input.now, 6) || (
        w.state != ChessboardState::Initial && input.now - w.context.last_board_change_time
            <= 12_000_000_000),
    ensures
        ({
            let camp = if w.state == ChessboardState::Initial {
                Camp::Unknown
            } else {
                w.context.current_camp
            };
            transition(w, input) == (Step {
                worker: Worker {
                    context: AnalysisContext {
                        current_camp: camp,
                        ..if input.settings.autoplay {
                            w.context
                        } else {
                            idle(w.context)
                        }
                    },
                    state: w.state,
                    phase: Phase::Looking { again: false },
                },
                effects: Seq::empty(),
                request: Request::Board { camp },
            })
        }),
{
}

/// The arrow that leads back is clicked wherever it is shown, and nothing else
/// is done. It is remembered when buttons were asked for.
pub proof fn rule_back_is_clicked(w: Worker, input: Input, frame: Frame, asked: u128, x: u32, y: u32)
    requires
        w.phase == (Phase::Routine { asked }) || w.phase == (Phase::Matching { asked }),
        input.reply == (Reply::Screen { frame }),
        button_on(frame) == Some(Button::Back { x, y }),
    ensures
        transition(w, input) == (Step {
            worker: Worker {
                context: AnalysisContext { last_auto_match_time: Some(asked), ..w.context },
                state: w.state,
                phase: Phase::Waiting,
            },
            effects: seq![Effect::Click { x, y }],
            request: Request::Wait,
        }),
{
}

/// The offer to play again is taken wherever it is shown. A new game begins: no
/// move waits, and nothing is known of it.
pub proof fn rule_play_again_is_clicked(
    w: Worker,
    input: Input,
    frame: Frame,
    asked: u128,
    x: u32,
    y: u32,
)
    requires
        w.phase == (Phase::Routine { asked }) || w.phase == (Phase::Matching { asked }),
        input.reply == (Reply::Screen { frame }),
        button_on(frame) == Some(Button::PlayAgain { x, y }),
    ensures
        transition(w, input) == (Step {
            worker: Worker {
                context: AnalysisContext { last_auto_match_time: Some(asked), ..idle(w.context) },
                state: ChessboardState::Initial,
                phase: Phase::Waiting,
            },
            effects: seq![Effect::Click { x, y }],
            request: Request::Wait,
        }),
{
}

/// If a routine look shows no button, that is remembered, and the board is read.
pub proof fn rule_no_button_in_routine(w: Worker, input: Input, frame: Frame, asked: u128)
    requires
        w.phase == (Phase::Routine { asked }),
        input.reply == (Reply::Screen { frame }),
        button_on(frame) is None,
    ensures
        ({
            let camp = if w.state == ChessboardState::Initial {
                Camp::Unknown
            } else {
                w.context.current_camp
            };
            transition(w, input) == (Step {
                worker: Worker {
                    context: AnalysisContext {
                        last_auto_match_time: Some(asked),
                        current_camp: camp,
                        ..w.context
                    },
                    state: w.state,
                    phase: Phase::Looking { again: false },
                },
                effects: Seq::empty(),
                request: Request::Board { camp },
            })
        }),
{
}

/// If a look without a board shows no button, nothing is done or remembered.
pub proof fn rule_no_button_without_board(w: Worker, input: Input, frame: Frame, asked: u128)
    requires
        w.phase == (Phase::Matching { asked }),
        input.reply == (Reply::Screen { frame }),
        button_on(frame) is None,
    ensures
        transition(w, input) == (Step {
            worker: Worker { phase: Phase::Waiting, ..w },
            effects: Seq::empty(),
            request: Request::Wait,
        }),
{
}

/// A board that is not seen, at the first reading, is looked for, unless that was
/// just done.
pub proof fn rule_unseen_board_is_searched(w: Worker, input: Input)
    requires
        w.phase == (Phase::Looking { again: false }),
        input.reply == (Reply::Board { sighting: None }),
        !just_searched(w.context, input.now),
    ensures
        transition(w, input) == (Step {
            worker: Worker {
                context: AnalysisContext { last_recalibrate_time: Some(input.now), ..w.context },
                state: w.state,
                phase: Phase::Calibrating,
            },
            effects: Seq::empty(),
            request: Request::Recalibrate,
        }),
{
}

/// A board that cannot be is looked for, unless that was just done. The side
/// that it tells counts all the same.
pub proof fn rule_impossible_board_is_searched(w: Worker, input: Input, s: Sighting)
    requires
        w.phase is Looking,
        input.reply == (Reply::Board { sighting: Some(s) }),
        !s.valid,
        !just_searched(w.context, input.now),
    ensures
        transition(w, input) == (Step {
            worker: Worker {
                context: AnalysisContext {
                    last_recalibrate_time: Some(input.now),
                    ..with_side(w.context, s.camp)
                },
                state: w.state,
                phase: Phase::Correcting,
            },
            effects: Seq::empty(),
            request: Request::Recalibrate,
        }),
{
}

/// Where the search succeeds, the board is read again.
pub proof fn rule_found_board_is_read(w: Worker, input: Input)
    requires
        w.phase is Calibrating || w.phase is Correcting,
        input.reply == (Reply::Recalibrated { success: true }),
    ensures
        transition(w, input) == (Step {
            worker: Worker {
                phase: if w.phase is Calibrating {
                    Phase::Looking { again: true }
                } else {
                    Phase::LookingAgain
                },
                ..w
            },
            effects: Seq::empty(),
            request: Request::Board { camp: w.context.current_camp },
        }),
{
}

/// Whether this look will not bring a board any more, and the context then: it
/// was not seen and will not be looked for, or not found, or cannot be.
pub open spec fn without_board(w: Worker, input: Input) -> Option<AnalysisContext> {
    match (w.phase, input.reply) {
        (Phase::Looking { again }, Reply::Board { sighting: None }) => if again || just_searched(
            w.context,
            input.now,
        ) {
            Some(w.context)
        } else {
            None
        },
        (Phase::Looking { .. }, Reply::Board { sighting: Some(s) }) => if !s.valid
            && just_searched(w.context, input.now) {
            Some(with_side(w.context, s.camp))
        } else {
            None
        },
        (Phase::Calibrating, Reply::Recalibrated { success: false }) => Some(w.context),
        (Phase::Correcting, Reply::Recalibrated { success: false }) => Some(w.context),
        (Phase::LookingAgain, Reply::Board { sighting }) => match sighting {
            Some(s) if s.valid => None,
            _ => Some(w.context),
        },
        _ => None,
    }
}

proof fn lemma_without_board(w: Worker, input: Input, context: AnalysisContext)
    requires
        without_board(w, input) == Some(context),
    ensures
        transition(w, input) == uncover(Worker { context, ..w }, input.now, input.settings),
{
    match (w.phase, input.reply) {
        (Phase::Looking { again }, Reply::Board { sighting: None }) => {},
        (Phase::Looking { again }, Reply::Board { sighting: Some(s) }) => {},
        (Phase::Calibrating, Reply::Recalibrated { success }) => {},
        (Phase::Correcting, Reply::Recalibrated { success }) => {},
        (Phase::LookingAgain, Reply::Board { sighting }) => {},
        _ => {},
    }
}

/// Without a board, the size of the window is asked for, to click away what may
/// hide it, if that was not done in the last six seconds.
pub proof fn rule_board_is_uncovered(w: Worker, input: Input, context: AnalysisContext)
    requires
        without_board(w, input) == Some(context),
        passed(context.last_invalid_click_time, input.now, 6),
    ensures
        transition(w, input) == (Step {
            worker: Worker {
                context,
                state: w.state,
                phase: Phase::Measuring { asked: input.now },
            },
            effects: Seq::empty(),
            request: Request::WindowSize,
        }),
{
    lemma_without_board(w, input, context);
}

/// Whether nothing is left to be tried for the board but the buttons, and the
/// context then: there is no board and what may hide it was clicked just now, or
/// not long ago, or the window is too small for that.
pub open spec fn left_with_buttons(w: Worker, input: Input) -> Option<AnalysisContext> {
    match (w.phase, input.reply) {
        (Phase::Dismissed, Reply::Ready) => Some(w.context),
        (Phase::Measuring { .. }, Reply::Size { width, height }) => if width < 2 || height < 2 {
            Some(w.context)
        } else {
            None
        },
        _ => match without_board(w, input) {
            Some(context) => if passed(context.last_invalid_click_time, input.now, 6) {
                None
            } else {
                Some(context)
            },
            None => None,
        },
    }
}

/// Then buttons are looked for, if games are to follow each other and they were
/// not looked for in the last five seconds; else the look is over.
pub proof fn rule_buttons_last(w: Worker, input: Input, context: AnalysisContext)
    requires
        left_with_buttons(w, input) == Some(context),
    ensures
        input.settings.auto_match && passed(context.last_auto_match_time, input.now, 5)
            ==> transition(w, input) == (Step {
            worker: Worker {
                context,
                state: w.state,
                phase: Phase::Matching { asked: input.now },
            },
            effects: Seq::empty(),
            request: Request::Screen,
        }),
        !input.settings.auto_match || !passed(context.last_auto_match_time, input.now, 5)
            ==> transition(w, input) == (Step {
            worker: Worker { context, state: w.state, phase: Phase::Waiting },
            effects: Seq::empty(),
            request: Request::Wait,
        }),
{
    if !(w.phase is Dismissed) && !(w.phase is Measuring) {
        lemma_without_board(w, input, context);
    }
}

/// What hides the board is clicked in the middle of the window, two thirds down,
/// and it is remembered when that was decided.
pub proof fn rule_click_uncovers(w: Worker, input: Input, asked: u128, width: u32, height: u32)
    requires
        w.phase == (Phase::Measuring { asked }),
        input.reply == (Reply::Size { width, height }),
        width >= 2,
        height >= 2,
    ensures
        transition(w, input).worker == (Worker {
            context: AnalysisContext { last_invalid_click_time: Some(asked), ..w.context },
            state: w.state,
            phase: Phase::Dismissed,
        }),
        transition(w, input).request is Proceed,
        transition(w, input).effects.len() == 1,
        transition(w, input).effects[0] matches Effect::Click { x, y } && 2 * x <= width < 2 * x + 2
            && 3 * y <= 2 * height < 3 * y + 3,
{
}

/// A valid board that was read, with the context once the side that the first
/// reading tells, and the time of a change, are noted.
pub open spec fn board_read(w: Worker, input: Input) -> Option<(AnalysisContext, Sighting)> {
    match (w.phase, input.reply) {
        (Phase::Looking { .. }, Reply::Board { sighting: Some(s) }) => if s.valid {
            Some((at_change(with_side(w.context, s.camp), s, input.now), s))
        } else {
            None
        },
        (Phase::LookingAgain, Reply::Board { sighting: Some(s) }) => if s.valid {
            Some((at_change(w.context, s, input.now), s))
        } else {
            None
        },
        _ => None,
    }
}

/// The context once the time of a change is noted.
pub open spec fn at_change(context: AnalysisContext, s: Sighting, now: u128) -> AnalysisContext {
    AnalysisContext {
        last_board_change_time: if s.board == context.last_board {
            context.last_board_change_time
        } else {
            now
        },
        ..context
    }
}

/// Whether a move was made more than three seconds ago and still does not show.
pub open spec fn without_effect(context: AnalysisContext, s: Sighting, now: u128) -> bool {
    &&& context.has_pending_click
    &&& s.board != context.expect_board
    &&& context.last_action_time matches Some(time) && now - time > 3_000_000_000
}

proof fn lemma_board_read(w: Worker, input: Input, context: AnalysisContext, s: Sighting)
    requires
        board_read(w, input) == Some((context, s)),
    ensures
        without_effect(context, s, input.now) ==> transition(w, input)
            == if input.settings.auto_match {
            (Worker { context, ..w }).asks(Phase::Doubting { sighting: s }, Request::Screen)
        } else {
            crate::worker::repeat(Worker { context, ..w }, s)
        },
        !without_effect(context, s, input.now) ==> transition(w, input) == judge(
            Worker {
                context: if context.has_pending_click && s.board == context.expect_board {
                    idle(context)
                } else {
                    context
                },
                ..w
            },
            s,
        ),
{
    let before = if w.phase is Looking {
        Worker { context: with_side(w.context, s.camp), ..w }
    } else {
        w
    };
    assert(transition(w, input) == follow(before, s, input.now, input.settings)) by {
        match w.phase {
            Phase::Looking { again } => {},
            _ => {},
        }
    }
    assert(context == at_change(before.context, s, input.now));
}

/// A move without effect is made again, for the side of the board that was read,
/// if games are not to follow each other.
pub proof fn rule_move_is_repeated(w: Worker, input: Input, context: AnalysisContext, s: Sighting)
    requires
        board_read(w, input) == Some((context, s)),
        without_effect(context, s, input.now),
        !input.settings.auto_match,
    ensures
        transition(w, input) == (Step {
            worker: Worker {
                context,
                state: w.state,
                phase: Phase::Repeating { sighting: s },
            },
            effects: seq![
                Effect::Play { expect_move: context.expect_move, camp: s.camp, linger: false },
            ],
            request: Request::Proceed,
        }),
{
    lemma_board_read(w, input, context, s);
}

/// Else buttons are looked for first.
pub proof fn rule_doubt(w: Worker, input: Input, context: AnalysisContext, s: Sighting)
    requires
        board_read(w, input) == Some((context, s)),
        without_effect(context, s, input.now),
        input.settings.auto_match,
    ensures
        transition(w, input) == (Step {
            worker: Worker { context, state: w.state, phase: Phase::Doubting { sighting: s } },
            effects: Seq::empty(),
            request: Request::Screen,
        }),
{
    lemma_board_read(w, input, context, s);
}

/// If a button shows, it is clicked and the move is not made again.
pub proof fn rule_doubt_confirmed(w: Worker, input: Input, s: Sighting, frame: Frame)
    requires
        w.phase == (Phase::Doubting { sighting: s }),
        input.reply == (Reply::Screen { frame }),
    ensures
        button_on(frame) matches Some(Button::Back { x, y }) ==> transition(w, input) == (Step {
            worker: Worker { phase: Phase::Leaving { new_game: false }, ..w },
            effects: seq![Effect::Click { x, y }],
            request: Request::Proceed,
        }),
        button_on(frame) matches Some(Button::PlayAgain { x, y }) ==> transition(w, input)
            == (Step {
            worker: Worker { phase: Phase::Leaving { new_game: true }, ..w },
            effects: seq![Effect::Click { x, y }],
            request: Request::Proceed,
        }),
{
}

/// If none shows, the move is made again.
pub proof fn rule_doubt_rejected(w: Worker, input: Input, s: Sighting, frame: Frame)
    requires
        w.phase == (Phase::Doubting { sighting: s }),
        input.reply == (Reply::Screen { frame }),
        button_on(frame) is None,
    ensures
        transition(w, input) == (Step {
            worker: Worker { phase: Phase::Repeating { sighting: s }, ..w },
            effects: seq![
                Effect::Play { expect_move: w.context.expect_move, camp: s.camp, linger: false },
            ],
            request: Request::Proceed,
        }),
{
}

/// After a game was left, no move waits, and buttons need not be looked for soon.
/// A new game begins just if one was asked for.
pub proof fn rule_game_is_left(w: Worker, input: Input, new_game: bool)
    requires
        w.phase == (Phase::Leaving { new_game }),
        input.reply is Ready,
    ensures
        transition(w, input) == (Step {
            worker: Worker {
                context: AnalysisContext {
                    last_auto_match_time: Some(input.now),
                    ..idle(w.context)
                },
                state: if new_game {
                    ChessboardState::Initial
                } else {
                    w.state
                },
                phase: Phase::Waiting,
            },
            effects: Seq::empty(),
            request: Request::Wait,
        }),
{
}

/// A valid board that is held against what is known of the game, with the
/// context then. A move that shows no longer waits; one that was made again
/// waits from now on.
pub open spec fn board_judged(w: Worker, input: Input) -> Option<(AnalysisContext, Sighting)> {
    match (w.phase, input.reply) {
        (Phase::Repeating { sighting }, Reply::Ready) => Some(
            (AnalysisContext { last_action_time: Some(input.now), ..w.context }, sighting),
        ),
        _ => match board_read(w, input) {
            Some((context, s)) => if without_effect(context, s, input.now) {
                None
            } else if context.has_pending_click && s.board == context.expect_board {
                Some((idle(context), s))
            } else {
                Some((context, s))
            },
            None => None,
        },
    }
}

proof fn lemma_board_judged(w: Worker, input: Input, context: AnalysisContext, s: Sighting)
    requires
        board_judged(w, input) == Some((context, s)),
    ensures
        transition(w, input) == judge(Worker { context, ..w }, s),
{
    if !(w.phase is Repeating) {
        let (read, seen) = board_read(w, input)->0;
        lemma_board_read(w, input, read, seen);
    }
}

/// The first board of a game is shown and the engine is asked about it. Where
/// the pieces stand as at the start, the game is at its start; else it is our
/// turn if we are red.
pub proof fn rule_first_board(w: Worker, input: Input, context: AnalysisContext, s: Sighting)
    requires
        board_judged(w, input) == Some((context, s)),
        w.state == ChessboardState::Initial,
    ensures
        transition(w, input) == (Step {
            worker: Worker {
                context: AnalysisContext { last_board: s.board, ..context },
                state: w.state,
                phase: Phase::Analyzing {
                    camp: s.camp,
                    next: if s.startpos {
                        ChessboardState::StartPos
                    } else if s.camp == Camp::Red {
                        ChessboardState::OurTurn
                    } else {
                        ChessboardState::OpponentTurn
                    },
                },
            },
            effects: seq![Effect::UpdateUi { camp: s.camp, board: s.board }],
            request: Request::Analyze { camp: s.camp, board: s.board },
        }),
{
    lemma_board_judged(w, input, context, s);
}

/// At the start of a game that the other side begins, the board is shown and the
/// other side is waited for.
pub proof fn rule_other_side_begins(w: Worker, input: Input, context: AnalysisContext, s: Sighting)
    requires
        board_judged(w, input) == Some((context, s)),
        w.state == ChessboardState::StartPos,
        s.startpos,
        s.camp != Camp::Red,
    ensures
        transition(w, input) == (Step {
            worker: Worker {
                context: AnalysisContext { last_board: s.board, ..context },
                state: ChessboardState::OpponentTurn,
                phase: Phase::Waiting,
            },
            effects: seq![Effect::UpdateUi { camp: s.camp, board: s.board }],
            request: Request::Wait,
        }),
{
    lemma_board_judged(w, input, context, s);
}

/// At the start of a game that we begin, a board that was not analysed yet is
/// shown, and the engine is asked about it.
pub proof fn rule_we_begin(w: Worker, input: Input, context: AnalysisContext, s: Sighting)
    requires
        board_judged(w, input) == Some((context, s)),
        w.state == ChessboardState::StartPos,
        s.startpos,
        s.camp == Camp::Red,
        s.board != context.last_board,
    ensures
        transition(w, input) == (Step {
            worker: Worker {
                context: AnalysisContext { last_board: s.board, ..context },
                state: w.state,
                phase: Phase::Analyzing { camp: s.camp, next: ChessboardState::OurTurn },
            },
            effects: seq![Effect::UpdateUi { camp: s.camp, board: s.board }],
            request: Request::Analyze { camp: s.camp, board: s.board },
        }),
{
    lemma_board_judged(w, input, context, s);
}

/// When the pieces leave the start, it is found out at once what happened.
pub proof fn rule_first_move(w: Worker, input: Input, context: AnalysisContext, s: Sighting)
    requires
        board_judged(w, input) == Some((context, s)),
        w.state == ChessboardState::StartPos,
        !s.startpos,
        s.board != context.last_board,
    ensures
        transition(w, input) == (Step {
            worker: Worker {
                context,
                state: w.state,
                phase: Phase::Comparing { sighting: s },
            },
            effects: Seq::empty(),
            request: Request::Diff { last: context.last_board, board: s.board },
        }),
{
    lemma_board_judged(w, input, context, s);
}

/// A board that is the last one says nothing new: at any turn, and at the start
/// unless the other side begins.
pub proof fn rule_nothing_new(w: Worker, input: Input, context: AnalysisContext, s: Sighting)
    requires
        board_judged(w, input) == Some((context, s)),
        s.board == context.last_board,
        w.state == ChessboardState::OurTurn || w.state == ChessboardState::OpponentTurn || (w.state
            == ChessboardState::StartPos && (!s.startpos || s.camp == Camp::Red)),
    ensures
        transition(w, input) == (Step {
            worker: Worker { context, state: w.state, phase: Phase::Waiting },
            effects: Seq::empty(),
            request: Request::Wait,
        }),
{
    lemma_board_judged(w, input, context, s);
}

/// At either turn, the expected board means that the expected move was made: it
/// is reported, and it is the other turn.
pub proof fn rule_expected_board(w: Worker, input: Input, context: AnalysisContext, s: Sighting)
    requires
        board_judged(w, input) == Some((context, s)),
        w.state == ChessboardState::OurTurn || w.state == ChessboardState::OpponentTurn,
        s.board != context.last_board,
        s.board == context.expect_board,
    ensures
        transition(w, input) == (Step {
            worker: Worker {
                context: AnalysisContext { last_board: s.board, ..idle(context) },
                state: if w.state == ChessboardState::OurTurn {
                    ChessboardState::OpponentTurn
                } else {
                    ChessboardState::OurTurn
                },
                phase: Phase::Waiting,
            },
            effects: seq![Effect::Moved { changed: context.expect_move }],
            request: Request::Wait,
        }),
{
    lemma_board_judged(w, input, context, s);
}

/// At either turn, a board that is neither the last nor the expected one is read
/// again, to make sure of it.
pub proof fn rule_unexpected_board(w: Worker, input: Input, context: AnalysisContext, s: Sighting)
    requires
        board_judged(w, input) == Some((context, s)),
        w.state == ChessboardState::OurTurn || w.state == ChessboardState::OpponentTurn,
        s.board != context.last_board,
        s.board != context.expect_board,
    ensures
        transition(w, input) == (Step {
            worker: Worker {
                context,
                state: w.state,
                phase: Phase::Confirming { sighting: s },
            },
            effects: Seq::empty(),
            request: Request::Confirm { camp: context.current_camp },
        }),
{
    lemma_board_judged(w, input, context, s);
}

/// After a change that is no move, a valid board leads to the beginning.
pub proof fn rule_after_invalid(w: Worker, input: Input, context: AnalysisContext, s: Sighting)
    requires
        board_judged(w, input) == Some((context, s)),
        w.state == ChessboardState::Invalid,
    ensures
        transition(w, input) == (Step {
            worker: Worker {
                context,
                state: ChessboardState::Initial,
                phase: Phase::Waiting,
            },
            effects: Seq::empty(),
            request: Request::Wait,
        }),
{
    lemma_board_judged(w, input, context, s);
}

/// A board that is read the same again is compared with the last one; one that
/// is not is given time.
pub proof fn rule_confirmed(w: Worker, input: Input, s: Sighting)
    requires
        w.phase == (Phase::Confirming { sighting: s }),
    ensures
        input.reply == (Reply::Confirmed { board: Some(s.board) }) ==> transition(w, input)
            == (Step {
            worker: Worker { phase: Phase::Comparing { sighting: s }, ..w },
            effects: Seq::empty(),
            request: Request::Diff { last: w.context.last_board, board: s.board },
        }),
        input.reply matches Reply::Confirmed { board } && board != Some(s.board) ==> transition(
            w,
            input,
        ) == (Step {
            worker: Worker { phase: Phase::Waiting, ..w },
            effects: seq![Effect::Rest],
            request: Request::Wait,
        }),
{
}

/// A move is reported. If our side made it, it is our turn; if not, the engine
/// is asked about the board, for our side, and it is the other turn after that.
pub proof fn rule_move_seen(w: Worker, input: Input, s: Sighting, changed: Changed)
    requires
        w.phase == (Phase::Comparing { sighting: s }),
        input.reply == (Reply::Difference { changed, state: BoardChangeState::Move }),
    ensures
        changed.camp == s.camp ==> transition(w, input) == (Step {
            worker: Worker {
                context: AnalysisContext { last_board: s.board, ..w.context },
                state: ChessboardState::OurTurn,
                phase: Phase::Waiting,
            },
            effects: seq![Effect::Moved { changed }],
            request: Request::Wait,
        }),
        changed.camp != s.camp ==> transition(w, input) == (Step {
            worker: Worker {
                context: AnalysisContext { last_board: s.board, ..w.context },
                state: w.state,
                phase: Phase::Analyzing { camp: s.camp, next: ChessboardState::OpponentTurn },
            },
            effects: seq![Effect::Moved { changed }],
            request: Request::Analyze { camp: s.camp, board: s.board },
        }),
{
}

/// A change that is no move is passed over three times, then the watcher starts
/// from nothing. The last board stays what it was.
pub proof fn rule_impossible_change(w: Worker, input: Input, s: Sighting, changed: Changed)
    requires
        w.phase == (Phase::Comparing { sighting: s }),
        input.reply == (Reply::Difference { changed, state: BoardChangeState::One }),
    ensures
        w.context.invalid_change_count < 3 ==> transition(w, input) == (Step {
            worker: Worker {
                context: AnalysisContext {
                    invalid_change_count: (w.context.invalid_change_count + 1) as usize,
                    ..w.context
                },
                state: ChessboardState::Invalid,
                phase: Phase::Waiting,
            },
            effects: Seq::empty(),
            request: Request::Wait,
        }),
        w.context.invalid_change_count >= 3 ==> transition(w, input) == (Step {
            worker: Worker {
                context: AnalysisContext { invalid_change_count: 0, ..w.context },
                state: ChessboardState::Initial,
                phase: Phase::Waiting,
            },
            effects: Seq::empty(),
            request: Request::Wait,
        }),
{
}

/// A change that cannot be told is shown, and the watcher starts from nothing.
pub proof fn rule_unknown_change(w: Worker, input: Input, s: Sighting, changed: Changed)
    requires
        w.phase == (Phase::Comparing { sighting: s }),
        input.reply == (Reply::Difference { changed, state: BoardChangeState::Unknown }),
    ensures
        transition(w, input) == (Step {
            worker: Worker {
                context: AnalysisContext { last_board: s.board, ..w.context },
                state: ChessboardState::Initial,
                phase: Phase::Waiting,
            },
            effects: seq![Effect::UpdateUi { camp: s.camp, board: s.board }],
            request: Request::Wait,
        }),
{
}

/// Without an opinion of the engine, what was expected stays expected.
pub proof fn rule_no_opinion(w: Worker, input: Input, camp: Camp, next: ChessboardState)
    requires
        w.phase == (Phase::Analyzing { camp, next }),
        input.reply == (Reply::Analyzed { result: None }),
    ensures
        transition(w, input) == (Step {
            worker: Worker { context: w.context, state: next, phase: Phase::Waiting },
            effects: Seq::empty(),
            request: Request::Wait,
        }),
{
}

/// What the engine suggests is expected. With autoplay on it is made at once, on
/// the board that was analysed, seen from the side that it was analysed for.
pub proof fn rule_suggestion(
    w: Worker,
    input: Input,
    camp: Camp,
    next: ChessboardState,
    result: crate::analysis::BoardAnalysisResult,
)
    requires
        w.phase == (Phase::Analyzing { camp, next }),
        input.reply == (Reply::Analyzed { result: Some(result) }),
    ensures
        ({
            let context = AnalysisContext {
                expect_move: result.expect_move,
                expect_board: result.expect_board,
                ..w.context
            };
            &&& input.settings.autoplay ==> transition(w, input) == (Step {
                worker: Worker { context, state: w.state, phase: Phase::Playing { next } },
                effects: seq![
                    Effect::Play { expect_move: result.expect_move, camp, linger: true },
                ],
                request: Request::Proceed,
            })
            &&& !input.settings.autoplay ==> transition(w, input) == (Step {
                worker: Worker { context, state: next, phase: Phase::Waiting },
                effects: Seq::empty(),
                request: Request::Wait,
            })
        }),
{
}

/// A move that was made waits to take effect from then on.
pub proof fn rule_move_waits(w: Worker, input: Input, next: ChessboardState)
    requires
        w.phase == (Phase::Playing { next }),
        input.reply is Ready,
    ensures
        transition(w, input) == (Step {
            worker: Worker {
                context: AnalysisContext {
                    has_pending_click: true,
                    last_action_time: Some(input.now),
                    ..w.context
                },
                state: next,
                phase: Phase::Waiting,
            },
            effects: Seq::empty(),
            request: Request::Wait,
        }),
{
}

} // verus!
