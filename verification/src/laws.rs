//! What holds of the watcher whatever the screen shows, and over any number of
//! steps.
use crate::analysis::BoardAnalysisResult;
use crate::board::{Board, BoardChangeState, Camp, Changed};
use crate::context::{
    due, elapsed, AnalysisContext, ChessboardState, Settings, CALIBRATION_PAUSE, DISMISSAL_PAUSE,
    INVALID_CHANGES, QUIET_TIME, ROUTINE_PAUSE,
};
use crate::protocol::{accepts, answers, Effect, Input, Phase, Reply, Request, Sighting};
use crate::buttons::{button_on, Button};
use crate::frame::Frame;
use crate::rules::{
    board_judged, board_read, idle, rule_confirmed, rule_doubt, rule_expected_board,
    rule_move_is_repeated, rule_move_seen, rule_nothing_new, rule_suggestion, rule_unexpected_board,
    without_effect,
};
use crate::worker::{
    after_analyzing, after_calibration, after_comparing, after_confirming, after_doubting,
    after_leaving, after_looking, after_looking_again, after_matching, after_measuring,
    after_playing, after_repeating, after_routine, begin, follow, invalid_change, judge, other_turn,
    press, recalibrate, transition, try_match, uncover, Step, Worker,
};
use vstd::prelude::*;

verus! {

/// What is asked for in each phase.
pub open spec fn pairs(phase: Phase, request: Request) -> bool {
    match phase {
        Phase::Waiting => request is Wait,
        Phase::Routine { .. } => request is Screen,
        Phase::Looking { .. } => request is Board,
        Phase::Calibrating => request is Recalibrate,
        Phase::Correcting => request is Recalibrate,
        Phase::LookingAgain => request is Board,
        Phase::Measuring { .. } => request is WindowSize,
        Phase::Dismissed => request is Proceed,
        Phase::Matching { .. } => request is Screen,
        Phase::Doubting { .. } => request is Screen,
        Phase::Leaving { .. } => request is Proceed,
        Phase::Repeating { .. } => request is Proceed,
        Phase::Confirming { .. } => request is Confirm,
        Phase::Comparing { sighting } => request matches Request::Diff { board, .. } && board
            == sighting.board,
        Phase::Analyzing { camp, .. } => request matches Request::Analyze { camp: side, .. } && side
            == camp,
        Phase::Playing { .. } => request is Proceed,
        Phase::Finished => request is Finish,
    }
}

/// How many steps a look at the screen can still take.
pub open spec fn steps_left(phase: Phase) -> nat {
    match phase {
        Phase::Waiting => 0,
        Phase::Finished => 0,
        Phase::Routine { .. } => 14,
        Phase::Looking { again: false } => 13,
        Phase::Calibrating => 12,
        Phase::Looking { again: true } => 11,
        Phase::Correcting => 10,
        Phase::LookingAgain => 9,
        Phase::Doubting { .. } => 8,
        Phase::Leaving { .. } => 7,
        Phase::Repeating { .. } => 7,
        Phase::Confirming { .. } => 6,
        Phase::Comparing { .. } => 5,
        Phase::Analyzing { .. } => 4,
        Phase::Measuring { .. } => 3,
        Phase::Playing { .. } => 3,
        Phase::Dismissed => 2,
        Phase::Matching { .. } => 1,
    }
}

/// What holds of every step: it leaves a watcher well formed, asks for what
/// that watcher waits for, and has at most one thing done.
pub open spec fn sound(step: Step, limit: nat) -> bool {
    &&& step.worker.well_formed()
    &&& pairs(step.worker.phase, step.request)
    &&& steps_left(step.worker.phase) <= limit
    &&& step.effects.len() <= 1
}

/// Whether a step leaves the times of the clicks and searches as they were.
pub open spec fn same_times(w: Worker, step: Step) -> bool {
    &&& step.worker.context.last_auto_match_time == w.context.last_auto_match_time
    &&& step.worker.context.last_recalibrate_time == w.context.last_recalibrate_time
    &&& step.worker.context.last_invalid_click_time == w.context.last_invalid_click_time
}

/// Whether a step leaves the count of impossible changes as it was.
pub open spec fn same_count(w: Worker, step: Step) -> bool {
    step.worker.context.invalid_change_count == w.context.invalid_change_count
}

/// Whether a step does nothing with the mouse.
pub open spec fn hands_off(step: Step) -> bool {
    forall|i: int|
        0 <= i < step.effects.len() ==> !(#[trigger] step.effects[i] is Play)
            && !(step.effects[i] is Click)
}

proof fn lemma_judge(w: Worker, s: Sighting)
    requires
        w.context.consistent(),
        s.valid,
    ensures
        sound(judge(w, s), 6),
        same_times(w, judge(w, s)),
        hands_off(judge(w, s)),
        same_count(w, judge(w, s)),
        judge(w, s).worker.context.has_pending_click ==> w.context.has_pending_click,
{
}

/// Whether a step makes the expected move again, since it did not take effect.
pub open spec fn repeats(w: Worker, step: Step) -> bool {
    &&& step.request is Proceed
    &&& step.effects.len() == 1
    &&& step.effects[0] matches Effect::Play { expect_move, linger, .. }
    &&& expect_move == w.context.expect_move
    &&& !linger
}

proof fn lemma_follow(w: Worker, s: Sighting, now: u128, settings: Settings)
    requires
        w.context.consistent(),
        s.valid,
    ensures
        sound(follow(w, s, now, settings), 8),
        same_times(w, follow(w, s, now, settings)),
        same_count(w, follow(w, s, now, settings)),
        hands_off(follow(w, s, now, settings)) || (w.context.overdue(now) && repeats(
            w,
            follow(w, s, now, settings),
        )),
        follow(w, s, now, settings).worker.phase is Doubting ==> settings.auto_match,
        !(follow(w, s, now, settings).worker.phase is Leaving),
        !(follow(w, s, now, settings).worker.phase is Playing),
        follow(w, s, now, settings).worker.context.has_pending_click
            ==> w.context.has_pending_click,
{
    let v = if s.board == w.context.last_board {
        w
    } else {
        w.with_context(AnalysisContext { last_board_change_time: now, ..w.context })
    };
    if v.context.has_pending_click && s.board == v.context.expect_board {
        lemma_judge(v.settled(), s);
    } else if v.context.overdue(now) {
    } else {
        lemma_judge(v, s);
    }
}

proof fn lemma_try_match(w: Worker, now: u128, settings: Settings)
    requires
        w.context.consistent(),
    ensures
        sound(try_match(w, now, settings), 1),
        try_match(w, now, settings).worker.context == w.context,
        try_match(w, now, settings).effects.len() == 0,
        match try_match(w, now, settings).worker.phase {
            Phase::Waiting => true,
            Phase::Matching { asked } => settings.auto_match && asked == now,
            _ => false,
        },
{
}

proof fn lemma_uncover(w: Worker, now: u128, settings: Settings)
    requires
        w.context.consistent(),
    ensures
        sound(uncover(w, now, settings), 3),
        uncover(w, now, settings).worker.context == w.context,
        uncover(w, now, settings).effects.len() == 0,
        match uncover(w, now, settings).worker.phase {
            Phase::Waiting => true,
            Phase::Measuring { asked } => asked == now,
            Phase::Matching { asked } => settings.auto_match && asked == now,
            _ => false,
        },
{
    lemma_try_match(w, now, settings);
}

proof fn lemma_press(w: Worker, asked: u128, button: Button)
    requires
        w.context.consistent(),
    ensures
        sound(press(w, asked, button), 0),
        press(w, asked, button).request is Wait,
        press(w, asked, button).worker.context.last_auto_match_time == Some(asked),
        same_times(w.matched(asked), press(w, asked, button)),
        same_count(w, press(w, asked, button)),
        press(w, asked, button).effects[0] is Click,
        press(w, asked, button).worker.context.has_pending_click ==> w.context.has_pending_click,
{
}

/// How a step may change the times of the clicks and searches.
pub open spec fn keeps_time(w: Worker, now: u128, step: Step) -> bool {
    let before = w.context;
    let after = step.worker.context;
    &&& if step.request is Recalibrate {
        before.may_recalibrate(now) && after.last_recalibrate_time == Some(now)
    } else {
        after.last_recalibrate_time == before.last_recalibrate_time
    }
    &&& match w.phase {
        Phase::Measuring { asked } if step.request is Proceed => after.last_invalid_click_time
            == Some(asked),
        _ => after.last_invalid_click_time == before.last_invalid_click_time,
    }
    &&& match w.phase {
        Phase::Routine { asked } => after.last_auto_match_time == Some(asked),
        Phase::Matching { asked } => after.last_auto_match_time == Some(asked)
            || after.last_auto_match_time == before.last_auto_match_time,
        Phase::Leaving { .. } => after.last_auto_match_time == Some(now),
        _ => after.last_auto_match_time == before.last_auto_match_time,
    }
}

/// Which phases a step may lead to.
pub open spec fn leads_on(w: Worker, input: Input, step: Step) -> bool {
    match step.worker.phase {
        Phase::Routine { asked } => {
            &&& w.phase is Waiting
            &&& asked == input.now
            &&& input.settings.auto_match
            &&& due(w.context.last_auto_match_time, input.now, ROUTINE_PAUSE)
            &&& w.state == ChessboardState::Initial || elapsed(
                input.now,
                w.context.last_board_change_time,
            ) > QUIET_TIME
        },
        Phase::Matching { asked } => asked == input.now && input.settings.auto_match && !(
        w.phase is Waiting),
        Phase::Measuring { asked } => asked == input.now,
        Phase::Doubting { .. } => input.settings.auto_match && (w.phase is Looking
            || w.phase is LookingAgain),
        Phase::Leaving { .. } => w.phase is Doubting,
        Phase::Playing { .. } => w.phase is Analyzing && input.settings.autoplay,
        _ => true,
    }
}

/// When a step may use the mouse, and for what.
pub open spec fn handles(w: Worker, input: Input, step: Step) -> bool {
    &&& match (w.phase, input.reply) {
        (Phase::Analyzing { camp, .. }, Reply::Analyzed { result: Some(result) }) => {
            ||| hands_off(step)
            ||| {
                &&& input.settings.autoplay
                &&& step.request is Proceed
                &&& step.effects == seq![
                    Effect::Play { expect_move: result.expect_move, camp, linger: true },
                ]
            }
        },
        (Phase::Looking { .. }, _) => hands_off(step) || (w.context.overdue(input.now) && repeats(
            w,
            step,
        )),
        (Phase::LookingAgain, _) => hands_off(step) || (w.context.overdue(input.now) && repeats(
            w,
            step,
        )),
        (Phase::Doubting { .. }, _) => step.effects[0] is Click || repeats(w, step),
        (Phase::Routine { .. }, _) => step.effects.len() == 1 ==> step.effects[0] is Click,
        (Phase::Matching { .. }, _) => step.effects.len() == 1 ==> step.effects[0] is Click,
        (Phase::Measuring { .. }, _) => step.effects.len() == 1 ==> step.effects[0] is Click,
        _ => hands_off(step),
    }
    &&& step.worker.context.has_pending_click ==> w.context.has_pending_click || w.phase is Playing
    &&& w.phase is Waiting && input.reply is Tick && !input.settings.autoplay
        ==> !step.worker.context.has_pending_click
}

/// What holds of every step.
#[verifier::opaque]
pub open spec fn lawful(w: Worker, input: Input, step: Step) -> bool {
    &&& sound(
        step,
        if w.phase is Waiting {
            14
        } else {
            (steps_left(w.phase) - 1) as nat
        },
    )
    &&& keeps_time(w, input.now, step)
    &&& w.phase is Comparing || same_count(w, step)
    &&& leads_on(w, input, step)
    &&& handles(w, input, step)
}

proof fn lemma_lawful_begin(w: Worker, input: Input)
    requires
        w.well_formed(),
        w.phase is Waiting,
    ensures
        lawful(w, input, begin(w, input.now, input.settings)),
{
    reveal(lawful);
}

proof fn lemma_lawful_routine(w: Worker, input: Input, asked: u128, frame: Frame)
    requires
        w.well_formed(),
        w.phase == (Phase::Routine { asked }),
    ensures
        lawful(w, input, after_routine(w, asked, frame)),
{
    reveal(lawful);
    if let Some(button) = button_on(frame) {
        lemma_press(w, asked, button);
    }
}

proof fn lemma_lawful_matching(w: Worker, input: Input, asked: u128, frame: Frame)
    requires
        w.well_formed(),
        w.phase == (Phase::Matching { asked }),
    ensures
        lawful(w, input, after_matching(w, asked, frame)),
{
    reveal(lawful);
    if let Some(button) = button_on(frame) {
        lemma_press(w, asked, button);
    }
}

/// A reading that brings no board.
proof fn lemma_lawful_uncover(w: Worker, v: Worker, input: Input)
    requires
        w.well_formed(),
        v == w.with_context(AnalysisContext { current_camp: v.context.current_camp, ..w.context }),
        w.phase is Looking || w.phase is LookingAgain || w.phase is Calibrating
            || w.phase is Correcting,
    ensures
        lawful(w, input, uncover(v, input.now, input.settings)),
{
    reveal(lawful);
    lemma_uncover(v, input.now, input.settings);
}

/// A reading that brings a valid board.
proof fn lemma_lawful_follow(w: Worker, v: Worker, input: Input, s: Sighting)
    requires
        w.well_formed(),
        v == w.with_context(AnalysisContext { current_camp: v.context.current_camp, ..w.context }),
        w.phase is Looking || w.phase is LookingAgain,
        s.valid,
    ensures
        lawful(w, input, follow(v, s, input.now, input.settings)),
{
    reveal(lawful);
    lemma_follow(v, s, input.now, input.settings);
}

proof fn lemma_lawful_recalibrate(w: Worker, v: Worker, input: Input, phase: Phase)
    requires
        w.well_formed(),
        v == w.with_context(AnalysisContext { current_camp: v.context.current_camp, ..w.context }),
        w.phase matches Phase::Looking { again } && (phase is Correcting || (phase is Calibrating
            && !again)),
        w.context.may_recalibrate(input.now),
    ensures
        lawful(w, input, recalibrate(v, input.now, phase)),
{
    reveal(lawful);
}

proof fn lemma_lawful_looking(w: Worker, input: Input, again: bool, sighting: Option<Sighting>)
    requires
        w.well_formed(),
        w.phase == (Phase::Looking { again }),
    ensures
        lawful(w, input, after_looking(w, again, sighting, input.now, input.settings)),
{
    match sighting {
        None => {
            if !again && w.context.may_recalibrate(input.now) {
                lemma_lawful_recalibrate(w, w, input, Phase::Calibrating);
            } else {
                lemma_lawful_uncover(w, w, input);
            }
        },
        Some(s) => {
            let camp = if s.camp == Camp::Unknown {
                w.context.current_camp
            } else {
                s.camp
            };
            let v = w.with_context(AnalysisContext { current_camp: camp, ..w.context });
            if s.valid {
                lemma_lawful_follow(w, v, input, s);
            } else if w.context.may_recalibrate(input.now) {
                lemma_lawful_recalibrate(w, v, input, Phase::Correcting);
            } else {
                lemma_lawful_uncover(w, v, input);
            }
        },
    }
}

proof fn lemma_lawful_calibration(w: Worker, input: Input, success: bool, phase: Phase)
    requires
        w.well_formed(),
        w.phase is Calibrating && phase == (Phase::Looking { again: true }) || w.phase is Correcting
            && phase is LookingAgain,
    ensures
        lawful(w, input, after_calibration(w, success, phase, input.now, input.settings)),
{
    if success {
        reveal(lawful);
    } else {
        lemma_lawful_uncover(w, w, input);
    }
}

proof fn lemma_lawful_looking_again(w: Worker, input: Input, sighting: Option<Sighting>)
    requires
        w.well_formed(),
        w.phase is LookingAgain,
    ensures
        lawful(w, input, after_looking_again(w, sighting, input.now, input.settings)),
{
    match sighting {
        Some(s) if s.valid => {
            lemma_lawful_follow(w, w, input, s);
        },
        _ => {
            lemma_lawful_uncover(w, w, input);
        },
    }
}

proof fn lemma_lawful_measuring(w: Worker, input: Input, asked: u128, width: u32, height: u32)
    requires
        w.well_formed(),
        w.phase == (Phase::Measuring { asked }),
    ensures
        lawful(w, input, after_measuring(w, asked, width, height, input.now, input.settings)),
{
    reveal(lawful);
    lemma_try_match(w, input.now, input.settings);
}

proof fn lemma_lawful_dismissed(w: Worker, input: Input)
    requires
        w.well_formed(),
        w.phase is Dismissed,
    ensures
        lawful(w, input, try_match(w, input.now, input.settings)),
{
    reveal(lawful);
    lemma_try_match(w, input.now, input.settings);
}

proof fn lemma_lawful_doubting(w: Worker, input: Input, s: Sighting, frame: Frame)
    requires
        w.well_formed(),
        w.phase == (Phase::Doubting { sighting: s }),
    ensures
        lawful(w, input, after_doubting(w, s, frame)),
{
    reveal(lawful);
}

proof fn lemma_lawful_leaving(w: Worker, input: Input, new_game: bool)
    requires
        w.well_formed(),
        w.phase == (Phase::Leaving { new_game }),
    ensures
        lawful(w, input, after_leaving(w, new_game, input.now)),
{
    reveal(lawful);
}

proof fn lemma_lawful_repeating(w: Worker, input: Input, s: Sighting)
    requires
        w.well_formed(),
        w.phase == (Phase::Repeating { sighting: s }),
    ensures
        lawful(w, input, after_repeating(w, s, input.now)),
{
    reveal(lawful);
    lemma_judge(
        w.with_context(AnalysisContext { last_action_time: Some(input.now), ..w.context }),
        s,
    );
}

proof fn lemma_lawful_confirming(w: Worker, input: Input, s: Sighting, board: Option<Board>)
    requires
        w.well_formed(),
        w.phase == (Phase::Confirming { sighting: s }),
    ensures
        lawful(w, input, after_confirming(w, s, board)),
{
    reveal(lawful);
}

proof fn lemma_lawful_comparing(
    w: Worker,
    input: Input,
    s: Sighting,
    changed: Changed,
    state: BoardChangeState,
)
    requires
        w.well_formed(),
        w.phase == (Phase::Comparing { sighting: s }),
    ensures
        lawful(w, input, after_comparing(w, s, changed, state)),
{
    reveal(lawful);
}

proof fn lemma_lawful_analyzing(
    w: Worker,
    input: Input,
    camp: Camp,
    next: ChessboardState,
    result: Option<BoardAnalysisResult>,
)
    requires
        w.well_formed(),
        w.phase == (Phase::Analyzing { camp, next }),
        input.reply == (Reply::Analyzed { result }),
    ensures
        lawful(w, input, after_analyzing(w, camp, next, result, input.settings)),
{
    reveal(lawful);
}

proof fn lemma_lawful_playing(w: Worker, input: Input, next: ChessboardState)
    requires
        w.well_formed(),
        w.phase == (Phase::Playing { next }),
    ensures
        lawful(w, input, after_playing(w, next, input.now)),
{
    reveal(lawful);
}

/// Every step is lawful.
proof fn lemma_lawful(w: Worker, input: Input)
    requires
        w.well_formed(),
        accepts(w.phase, input.reply),
    ensures
        lawful(w, input, transition(w, input)),
{
    match (w.phase, input.reply) {
        (Phase::Waiting, Reply::Tick) => {
            lemma_lawful_begin(w, input);
        },
        (Phase::Waiting, _) => {
            reveal(lawful);
        },
        (Phase::Routine { asked }, Reply::Screen { frame }) => {
            lemma_lawful_routine(w, input, asked, frame);
        },
        (Phase::Looking { again }, Reply::Board { sighting }) => {
            lemma_lawful_looking(w, input, again, sighting);
        },
        (Phase::Calibrating, Reply::Recalibrated { success }) => {
            lemma_lawful_calibration(w, input, success, Phase::Looking { again: true });
        },
        (Phase::Correcting, Reply::Recalibrated { success }) => {
            lemma_lawful_calibration(w, input, success, Phase::LookingAgain);
        },
        (Phase::LookingAgain, Reply::Board { sighting }) => {
            lemma_lawful_looking_again(w, input, sighting);
        },
        (Phase::Measuring { asked }, Reply::Size { width, height }) => {
            lemma_lawful_measuring(w, input, asked, width, height);
        },
        (Phase::Dismissed, Reply::Ready) => {
            lemma_lawful_dismissed(w, input);
        },
        (Phase::Matching { asked }, Reply::Screen { frame }) => {
            lemma_lawful_matching(w, input, asked, frame);
        },
        (Phase::Doubting { sighting }, Reply::Screen { frame }) => {
            lemma_lawful_doubting(w, input, sighting, frame);
        },
        (Phase::Leaving { new_game }, Reply::Ready) => {
            lemma_lawful_leaving(w, input, new_game);
        },
        (Phase::Repeating { sighting }, Reply::Ready) => {
            lemma_lawful_repeating(w, input, sighting);
        },
        (Phase::Confirming { sighting }, Reply::Confirmed { board }) => {
            lemma_lawful_confirming(w, input, sighting, board);
        },
        (Phase::Comparing { sighting }, Reply::Difference { changed, state }) => {
            lemma_lawful_comparing(w, input, sighting, changed, state);
        },
        (Phase::Analyzing { camp, next }, Reply::Analyzed { result }) => {
            lemma_lawful_analyzing(w, input, camp, next, result);
        },
        (Phase::Playing { next }, Reply::Ready) => {
            lemma_lawful_playing(w, input, next);
        },
        _ => {},
    }
}

proof fn lemma_parts(w: Worker, input: Input, step: Step)
    requires
        lawful(w, input, step),
    ensures
        step.worker.well_formed(),
        pairs(step.worker.phase, step.request),
        step.effects.len() <= 1,
        steps_left(step.worker.phase) <= 14,
        !(w.phase is Waiting) && !(w.phase is Finished) ==> steps_left(step.worker.phase)
            < steps_left(w.phase),
        keeps_time(w, input.now, step),
        w.phase is Comparing || same_count(w, step),
        leads_on(w, input, step),
        handles(w, input, step),
{
    reveal(lawful);
}

proof fn lemma_pairs(phase: Phase, request: Request, reply: Reply)
    requires
        pairs(phase, request),
    ensures
        answers(request, reply) <==> accepts(phase, reply),
{
}

/// A step keeps what holds between any two steps.
pub proof fn lemma_step_well_formed(w: Worker, input: Input)
    requires
        w.well_formed(),
        accepts(w.phase, input.reply),
    ensures
        transition(w, input).worker.well_formed(),
{
    lemma_lawful(w, input);
    lemma_parts(w, input, transition(w, input));
}

/// What the watcher asks for is always answered by what it can take, and by
/// nothing else.
pub proof fn lemma_answers_fit(w: Worker, input: Input, reply: Reply)
    requires
        w.well_formed(),
        accepts(w.phase, input.reply),
    ensures
        answers(transition(w, input).request, reply) <==> accepts(
            transition(w, input).worker.phase,
            reply,
        ),
{
    lemma_lawful(w, input);
    lemma_parts(w, input, transition(w, input));
    lemma_pairs(transition(w, input).worker.phase, transition(w, input).request, reply);
}

/// Every look at the screen comes to an end: each step brings it nearer.
pub proof fn lemma_look_ends(w: Worker, input: Input)
    requires
        w.well_formed(),
        accepts(w.phase, input.reply),
        !(w.phase is Waiting),
    ensures
        steps_left(transition(w, input).worker.phase) < steps_left(w.phase),
{
    lemma_lawful(w, input);
    lemma_parts(w, input, transition(w, input));
}

/// Told to stop, the watcher does nothing any more and takes no answer.
pub proof fn lemma_stop(w: Worker, input: Input, reply: Reply)
    requires
        w.phase is Waiting,
        input.reply is Stopped,
    ensures
        transition(w, input).effects == Seq::<Effect>::empty(),
        transition(w, input).request is Finish,
        transition(w, input).worker.phase is Finished,
        transition(w, input).worker.context == w.context,
        transition(w, input).worker.state == w.state,
        !accepts(transition(w, input).worker.phase, reply),
{
}

/// Whether a move is made for a reason: the engine has just suggested it while
/// moves are to be made, or it was made before and did not take effect in time.
pub open spec fn has_reason(w: Worker, input: Input, play: Effect) -> bool {
    match (w.phase, input.reply) {
        (Phase::Analyzing { camp, .. }, Reply::Analyzed { result: Some(result) }) => {
            &&& input.settings.autoplay
            &&& play == (Effect::Play { expect_move: result.expect_move, camp, linger: true })
        },
        _ => {
            &&& w.phase is Doubting || ((w.phase is Looking || w.phase is LookingAgain)
                && w.context.overdue(input.now))
            &&& w.context.has_pending_click
            &&& play matches Effect::Play { expect_move, linger, .. }
            &&& expect_move == w.context.expect_move
            &&& !linger
        },
    }
}

proof fn lemma_reason(w: Worker, input: Input, step: Step, i: int)
    requires
        w.well_formed(),
        lawful(w, input, step),
        0 <= i < step.effects.len(),
        step.effects[i] is Play,
    ensures
        step.effects.len() == 1,
        step.request is Proceed,
        has_reason(w, input, step.effects[i]),
{
    lemma_parts(w, input, step);
}

/// The watcher makes a move only for a reason.
pub proof fn lemma_reason_to_play(w: Worker, input: Input, i: int)
    requires
        w.well_formed(),
        accepts(w.phase, input.reply),
        0 <= i < transition(w, input).effects.len(),
        transition(w, input).effects[i] is Play,
    ensures
        transition(w, input).effects.len() == 1,
        transition(w, input).request is Proceed,
        has_reason(w, input, transition(w, input).effects[i]),
{
    lemma_lawful(w, input);
    lemma_reason(w, input, transition(w, input), i);
}

/// Whether a valid board is what a reading of the board brought.
pub open spec fn reads(w: Worker, input: Input, s: Sighting) -> bool {
    &&& w.phase is Looking || w.phase is LookingAgain
    &&& input.reply == (Reply::Board { sighting: Some(s) })
    &&& s.valid
}

/// The watcher, once it knows the side that was seen.
pub open spec fn aware(w: Worker, s: Sighting) -> Worker {
    if w.phase is Looking && s.camp != Camp::Unknown {
        w.with_context(AnalysisContext { current_camp: s.camp, ..w.context })
    } else {
        w
    }
}

proof fn lemma_reading(w: Worker, input: Input, s: Sighting)
    requires
        reads(w, input, s),
    ensures
        transition(w, input) == follow(aware(w, s), s, input.now, input.settings),
{
    assert(aware(w, s).context == (AnalysisContext {
        current_camp: aware(w, s).context.current_camp,
        ..w.context
    }));
}

/// As long as the board stays the same during a game, and no move waits to take
/// effect, nothing is done and nothing is asked of the engine. Only the side may
/// become known.
pub proof fn lemma_same_board_is_left_alone(w: Worker, input: Input, s: Sighting)
    requires
        reads(w, input, s),
        s.board == w.context.last_board,
        !w.context.has_pending_click,
        w.state == ChessboardState::OurTurn || w.state == ChessboardState::OpponentTurn || (w.state
            == ChessboardState::StartPos && (!s.startpos || s.camp == Camp::Red)),
    ensures
        transition(w, input).effects == Seq::<Effect>::empty(),
        transition(w, input).request is Wait,
        transition(w, input).worker.state == w.state,
        transition(w, input).worker.context == (AnalysisContext {
            current_camp: transition(w, input).worker.context.current_camp,
            ..w.context
        }),
        s.camp == w.context.current_camp ==> transition(w, input).worker.context == w.context,
{
    lemma_reading(w, input, s);
}

/// When the expected move shows on the board, it is reported, the turn passes
/// to the other side, no move waits any more, and the engine is not asked.
pub proof fn lemma_expected_move(w: Worker, input: Input, s: Sighting)
    requires
        reads(w, input, s),
        w.state == ChessboardState::OurTurn || w.state == ChessboardState::OpponentTurn,
        s.board == w.context.expect_board,
        s.board != w.context.last_board,
        w.context.consistent(),
    ensures
        transition(w, input).effects == seq![Effect::Moved { changed: w.context.expect_move }],
        transition(w, input).request is Wait,
        transition(w, input).worker.state == other_turn(w.state),
        transition(w, input).worker.context.last_board == s.board,
        !transition(w, input).worker.context.has_pending_click,
{
    lemma_reading(w, input, s);
}

/// A move that shows on the board no longer waits to take effect.
pub proof fn lemma_move_takes_effect(w: Worker, input: Input, s: Sighting)
    requires
        reads(w, input, s),
        w.context.consistent(),
        s.board == w.context.expect_board,
    ensures
        !transition(w, input).worker.context.has_pending_click,
{
    lemma_reading(w, input, s);
    let v = aware(w, s);
    let u = if s.board == v.context.last_board {
        v
    } else {
        v.with_context(AnalysisContext { last_board_change_time: input.now, ..v.context })
    };
    if u.context.has_pending_click {
        lemma_judge(u.settled(), s);
    } else {
        lemma_judge(u, s);
    }
}

/// A move on a board that holds still is reported. The engine is asked about it
/// just if the other side made it.
pub proof fn lemma_moves_are_reported(w: Worker, input: Input, s: Sighting, changed: Changed)
    requires
        w.phase == (Phase::Comparing { sighting: s }),
        input.reply == (Reply::Difference { changed, state: BoardChangeState::Move }),
    ensures
        transition(w, input).effects == seq![Effect::Moved { changed }],
        transition(w, input).worker.context.last_board == s.board,
        changed.camp == s.camp ==> transition(w, input).request is Wait && transition(
            w,
            input,
        ).worker.state == ChessboardState::OurTurn,
        changed.camp != s.camp ==> transition(w, input).request == (Request::Analyze {
            camp: s.camp,
            board: s.board,
        }),
{
}

/// After two moves it is the same side's turn again.
pub proof fn lemma_turns_alternate(state: ChessboardState)
    requires
        state == ChessboardState::OurTurn || state == ChessboardState::OpponentTurn,
    ensures
        other_turn(state) != state,
        other_turn(other_turn(state)) == state,
{
}

/// A board that does not hold still changes nothing: the watcher only rests.
pub proof fn lemma_unsteady_board_is_ignored(w: Worker, input: Input, s: Sighting)
    requires
        w.phase == (Phase::Confirming { sighting: s }),
        input.reply matches Reply::Confirmed { board } && board != Some(s.board),
    ensures
        transition(w, input).effects == seq![Effect::Rest],
        transition(w, input).request is Wait,
        transition(w, input).worker.state == w.state,
        transition(w, input).worker.context == w.context,
{
}

/// The watcher after this many changes that are no moves.
pub open spec fn invalid_changes(w: Worker, n: nat) -> Worker
    decreases n,
{
    if n == 0 {
        w
    } else {
        invalid_change(invalid_changes(w, (n - 1) as nat))
    }
}

/// The changes that are no moves are passed over, as many as are allowed; with
/// the next one the watcher starts from nothing, and the count with it.
pub proof fn lemma_invalid_changes(w: Worker, n: nat)
    requires
        w.context.invalid_change_count + n <= INVALID_CHANGES + 1,
        n > 0,
    ensures
        w.context.invalid_change_count + n <= INVALID_CHANGES ==> {
            &&& invalid_changes(w, n).state == ChessboardState::Invalid
            &&& invalid_changes(w, n).context.invalid_change_count
                == w.context.invalid_change_count + n
        },
        w.context.invalid_change_count + n == INVALID_CHANGES + 1 ==> {
            &&& invalid_changes(w, n).state == ChessboardState::Initial
            &&& invalid_changes(w, n).context.invalid_change_count == 0
        },
    decreases n,
{
    if n > 1 {
        lemma_invalid_changes(w, (n - 1) as nat);
    }
    reveal_with_fuel(invalid_changes, 2);
}

/// Nothing but a change that is no move touches the count.
pub proof fn lemma_count_is_kept(w: Worker, input: Input)
    requires
        w.well_formed(),
        accepts(w.phase, input.reply),
        !(input.reply matches Reply::Difference { state, .. } && state == BoardChangeState::One),
    ensures
        transition(w, input).worker.context.invalid_change_count == w.context.invalid_change_count,
{
    if !(w.phase is Comparing) {
        lemma_lawful(w, input);
        lemma_parts(w, input, transition(w, input));
    }
}

/// After a change that is no move, any valid board leads back to the beginning,
/// with nothing done.
pub proof fn lemma_invalid_recovers(w: Worker, s: Sighting)
    requires
        w.state == ChessboardState::Invalid,
    ensures
        judge(w, s) == w.with_state(ChessboardState::Initial).waits(Seq::empty()),
{
}

/// The steps of a watcher from the beginning: the watcher before each step and
/// after the last, and the answers it got. The clock does not go back.
pub struct Trace {
    pub workers: Seq<Worker>,
    pub inputs: Seq<Input>,
}

impl Trace {
    pub open spec fn valid(self) -> bool {
        &&& self.workers.len() == self.inputs.len() + 1
        &&& self.workers[0].fresh()
        &&& forall|i: int|
            0 <= i < self.inputs.len() ==> {
                &&& accepts(self.workers[i].phase, self.inputs[i].reply)
                &&& self.workers[i + 1] == (#[trigger] self.step(i)).worker
            }
        &&& forall|i: int, j: int|
            0 <= i <= j < self.inputs.len() ==> (#[trigger] self.inputs[i]).now <= (
            #[trigger] self.inputs[j]).now
    }

    /// What comes of answer `i`.
    #[verifier::opaque]
    pub open spec fn step(self, i: int) -> Step {
        transition(self.workers[i], self.inputs[i])
    }

    /// What step `i` asks for.
    pub open spec fn request(self, i: int) -> Request {
        self.step(i).request
    }

    /// What step `i` has done.
    pub open spec fn effects(self, i: int) -> Seq<Effect> {
        self.step(i).effects
    }
}

/// The watcher is well formed at all times.
pub proof fn lemma_always_well_formed(t: Trace, k: int)
    requires
        t.valid(),
        0 <= k <= t.inputs.len(),
    ensures
        t.workers[k].well_formed(),
    decreases k,
{
    if k > 0 {
        lemma_always_well_formed(t, k - 1);
        assert(t.workers[k - 1 + 1] == t.step(k - 1).worker);
        reveal(Trace::step);
        lemma_step_well_formed(t.workers[k - 1], t.inputs[k - 1]);
    }
}

/// What is known of step `k`.
proof fn lemma_trace_step(t: Trace, k: int)
    requires
        t.valid(),
        0 <= k < t.inputs.len(),
    ensures
        t.workers[k].well_formed(),
        accepts(t.workers[k].phase, t.inputs[k].reply),
        lawful(t.workers[k], t.inputs[k], t.step(k)),
        t.workers[k + 1] == t.step(k).worker,
{
    lemma_always_well_formed(t, k);
    assert(t.workers[k + 1] == t.step(k).worker);
    lemma_lawful(t.workers[k], t.inputs[k]);
    reveal(Trace::step);
}

proof fn lemma_recalibration_is_remembered(t: Trace, i: int, k: int)
    requires
        t.valid(),
        0 <= i < k <= t.inputs.len(),
        t.request(i) is Recalibrate,
    ensures
        t.workers[k].context.last_recalibrate_time matches Some(time) && t.inputs[i].now <= time,
    decreases k,
{
    lemma_trace_step(t, k - 1);
    lemma_parts(t.workers[k - 1], t.inputs[k - 1], t.step(k - 1));
    if k > i + 1 {
        lemma_recalibration_is_remembered(t, i, k - 1);
        assert(t.inputs[i].now <= t.inputs[k - 1].now);
    }
}

/// The board is looked for anew at most once in two seconds.
pub proof fn lemma_recalibrations_lie_apart(t: Trace, i: int, j: int)
    requires
        t.valid(),
        0 <= i < j < t.inputs.len(),
        t.request(i) is Recalibrate,
        t.request(j) is Recalibrate,
    ensures
        t.inputs[j].now - t.inputs[i].now >= CALIBRATION_PAUSE,
{
    lemma_recalibration_is_remembered(t, i, j);
    lemma_trace_step(t, j);
    lemma_parts(t.workers[j], t.inputs[j], t.step(j));
}

/// The first board is waited for when nothing was asked yet.
proof fn lemma_asked_before(t: Trace, k: int)
    requires
        t.valid(),
        0 <= k <= t.inputs.len(),
        !(t.workers[k].phase is Waiting),
    ensures
        k > 0,
        pairs(t.workers[k].phase, t.request(k - 1)),
{
    if k > 0 {
        lemma_trace_step(t, k - 1);
        lemma_parts(t.workers[k - 1], t.inputs[k - 1], t.step(k - 1));
    }
}

/// A move that the engine suggests is made for the side that the engine was
/// asked for: the step before asked for an analysis for that side, and the
/// engine's answer names that move.
pub proof fn lemma_played_for_the_side_asked_for(
    t: Trace,
    j: int,
    expect_move: Changed,
    camp: Camp,
)
    requires
        t.valid(),
        0 <= j < t.inputs.len(),
        t.effects(j).len() > 0,
        t.effects(j)[0] == (Effect::Play { expect_move, camp, linger: true }),
    ensures
        j > 0,
        t.request(j - 1) matches Request::Analyze { camp: side, .. } && side == camp,
        t.inputs[j].reply matches Reply::Analyzed { result: Some(result) } && result.expect_move
            == expect_move,
        t.inputs[j].settings.autoplay,
{
    lemma_trace_step(t, j);
    lemma_reason(t.workers[j], t.inputs[j], t.step(j), 0);
    lemma_asked_before(t, j);
}

/// Whether step `i` clicks away what may hide the board, as decided at `asked`.
pub open spec fn dismisses(t: Trace, i: int, asked: u128) -> bool {
    &&& t.workers[i].phase == (Phase::Measuring { asked })
    &&& t.request(i) is Proceed
}

proof fn lemma_dismissal_is_remembered(t: Trace, i: int, asked: u128, k: int)
    requires
        t.valid(),
        0 <= i < k <= t.inputs.len(),
        dismisses(t, i, asked),
    ensures
        t.workers[k].context.last_invalid_click_time matches Some(time) && asked <= time,
    decreases k,
{
    lemma_trace_step(t, k - 1);
    lemma_parts(t.workers[k - 1], t.inputs[k - 1], t.step(k - 1));
    if k > i + 1 {
        lemma_dismissal_is_remembered(t, i, asked, k - 1);
        lemma_always_well_formed(t, k - 1);
    }
}

/// Clicks that should uncover the board lie more than six seconds apart.
pub proof fn lemma_dismissals_lie_apart(t: Trace, i: int, at_i: u128, j: int, at_j: u128)
    requires
        t.valid(),
        0 <= i < j < t.inputs.len(),
        dismisses(t, i, at_i),
        dismisses(t, j, at_j),
    ensures
        at_j - at_i > DISMISSAL_PAUSE,
{
    lemma_dismissal_is_remembered(t, i, at_i, j);
    lemma_always_well_formed(t, j);
}

/// Whether step `i` begins a routine look for buttons.
pub open spec fn routine(t: Trace, i: int) -> bool {
    t.workers[i].phase is Waiting && t.request(i) is Screen
}

proof fn lemma_routine_is_remembered(t: Trace, i: int, k: int)
    requires
        t.valid(),
        0 <= i < k <= t.inputs.len(),
        routine(t, i),
    ensures
        match t.workers[k].phase {
            Phase::Routine { asked } => t.inputs[i].now <= asked,
            Phase::Matching { asked } => t.inputs[i].now <= asked,
            _ => true,
        },
        t.workers[k].phase is Routine || (t.workers[k].context.last_auto_match_time matches Some(
            time,
        ) && t.inputs[i].now <= time),
    decreases k,
{
    lemma_trace_step(t, k - 1);
    lemma_parts(t.workers[k - 1], t.inputs[k - 1], t.step(k - 1));
    if k > i + 1 {
        lemma_routine_is_remembered(t, i, k - 1);
        assert(t.inputs[i].now <= t.inputs[k - 1].now);
    }
}

/// Routine looks for buttons lie more than six seconds apart, and are made only
/// if games are to follow each other, and not while one is played.
pub proof fn lemma_routine_looks_lie_apart(t: Trace, i: int, j: int)
    requires
        t.valid(),
        0 <= i < j < t.inputs.len(),
        routine(t, i),
        routine(t, j),
    ensures
        t.inputs[j].now - t.inputs[i].now > ROUTINE_PAUSE,
        t.inputs[j].settings.auto_match,
        t.workers[j].state == ChessboardState::Initial || elapsed(
            t.inputs[j].now,
            t.workers[j].context.last_board_change_time,
        ) > QUIET_TIME,
{
    lemma_routine_is_remembered(t, i, j);
    lemma_trace_step(t, j);
    lemma_parts(t.workers[j], t.inputs[j], t.step(j));
}

/// In a look that begins with autoplay off, and as long as it stays off, no
/// move waits to take effect, and no time is kept for one: after each step, and
/// so also at the end of the look and of every later one.
pub proof fn lemma_no_autoplay_nothing_waits(t: Trace, i: int, k: int)
    requires
        t.valid(),
        0 <= i < k <= t.inputs.len(),
        t.workers[i].phase is Waiting,
        t.inputs[i].reply is Tick,
        forall|m: int| i <= m < k ==> !(#[trigger] t.inputs[m]).settings.autoplay,
    ensures
        !t.workers[k].context.has_pending_click,
        t.workers[k].context.last_action_time is None,
        !(t.workers[k].phase is Playing),
    decreases k,
{
    lemma_trace_step(t, k - 1);
    lemma_parts(t.workers[k - 1], t.inputs[k - 1], t.step(k - 1));
    assert(!t.inputs[k - 1].settings.autoplay);
    if k > i + 1 {
        lemma_no_autoplay_nothing_waits(t, i, k - 1);
    }
}

/// From the first look after the user switched it off, and as long as it stays
/// off, no move is made.
pub proof fn lemma_no_autoplay_no_move(t: Trace, i: int, j: int, e: int)
    requires
        t.valid(),
        0 <= i <= j < t.inputs.len(),
        t.workers[i].phase is Waiting,
        forall|m: int| i <= m <= j ==> !(#[trigger] t.inputs[m]).settings.autoplay,
        0 <= e < t.effects(j).len(),
    ensures
        !(t.effects(j)[e] is Play),
{
    lemma_trace_step(t, j);
    lemma_parts(t.workers[j], t.inputs[j], t.step(j));
    assert(!t.inputs[j].settings.autoplay);
    if i < j {
        if t.inputs[i].reply is Tick {
            lemma_no_autoplay_nothing_waits(t, i, j);
            lemma_always_well_formed(t, j);
        } else {
            lemma_trace_step(t, i);
            lemma_stop_is_last(t, i);
        }
    }
}

/// Nothing follows a stop.
proof fn lemma_stop_is_last(t: Trace, i: int)
    requires
        t.valid(),
        0 <= i < t.inputs.len(),
        t.workers[i].phase is Waiting,
        t.inputs[i].reply is Stopped,
    ensures
        i + 1 == t.inputs.len(),
{
    lemma_trace_step(t, i);
    reveal(Trace::step);
    if i + 1 < t.inputs.len() {
        lemma_trace_step(t, i + 1);
        lemma_stop(t.workers[i], t.inputs[i], t.inputs[i + 1].reply);
    }
}

proof fn lemma_no_screen(t: Trace, i: int, k: int)
    requires
        t.valid(),
        0 <= i <= k <= t.inputs.len(),
        t.workers[i].phase is Waiting,
        forall|m: int| i <= m < k ==> !(#[trigger] t.inputs[m]).settings.auto_match,
    ensures
        !(t.workers[k].phase is Routine),
        !(t.workers[k].phase is Matching),
        !(t.workers[k].phase is Doubting),
        !(t.workers[k].phase is Leaving),
    decreases k,
{
    if k > i {
        lemma_trace_step(t, k - 1);
        lemma_parts(t.workers[k - 1], t.inputs[k - 1], t.step(k - 1));
        assert(!t.inputs[k - 1].settings.auto_match);
        lemma_no_screen(t, i, k - 1);
    }
}

/// From the first look after the user switched it off, and as long as it stays
/// off, no buttons are looked for.
pub proof fn lemma_no_auto_match_no_look(t: Trace, i: int, j: int)
    requires
        t.valid(),
        0 <= i <= j < t.inputs.len(),
        t.workers[i].phase is Waiting,
        forall|m: int| i <= m <= j ==> !(#[trigger] t.inputs[m]).settings.auto_match,
    ensures
        !(t.request(j) is Screen),
{
    lemma_trace_step(t, j);
    lemma_parts(t.workers[j], t.inputs[j], t.step(j));
    lemma_no_screen(t, i, j + 1);
}

/// From the first look after the user switched it off, and as long as it stays
/// off, the only clicks are those that should uncover the board.
pub proof fn lemma_no_auto_match_no_button(t: Trace, i: int, j: int, e: int)
    requires
        t.valid(),
        0 <= i <= j < t.inputs.len(),
        t.workers[i].phase is Waiting,
        forall|m: int| i <= m <= j ==> !(#[trigger] t.inputs[m]).settings.auto_match,
        0 <= e < t.effects(j).len(),
    ensures
        t.effects(j)[e] is Click ==> t.workers[j].phase is Measuring,
{
    lemma_trace_step(t, j);
    lemma_parts(t.workers[j], t.inputs[j], t.step(j));
    lemma_no_screen(t, i, j);
}

/// What comes of an answer, as one thing.
#[verifier::opaque]
pub open spec fn outcome(w: Worker, input: Input) -> Step {
    transition(w, input)
}

proof fn lemma_repeated_or_doubted(w: Worker, input: Input, context: AnalysisContext, s: Sighting)
    requires
        board_read(w, input) == Some((context, s)),
        without_effect(context, s, input.now),
    ensures
        outcome(w, input) == if input.settings.auto_match {
            Step {
                worker: Worker { context, state: w.state, phase: Phase::Doubting { sighting: s } },
                effects: Seq::empty(),
                request: Request::Screen,
            }
        } else {
            Step {
                worker: Worker { context, state: w.state, phase: Phase::Repeating { sighting: s } },
                effects: seq![
                    Effect::Play { expect_move: context.expect_move, camp: s.camp, linger: false },
                ],
                request: Request::Proceed,
            }
        },
{
    reveal(outcome);
    if input.settings.auto_match {
        rule_doubt(w, input, context, s);
    } else {
        rule_move_is_repeated(w, input, context, s);
    }
}

/// What a board that is held against the game at a turn leads to.
proof fn lemma_turn(w: Worker, input: Input, context: AnalysisContext, s: Sighting)
    requires
        board_judged(w, input) == Some((context, s)),
        w.state == ChessboardState::OurTurn || w.state == ChessboardState::OpponentTurn,
    ensures
        s.board == context.last_board ==> outcome(w, input) == (Step {
            worker: Worker { context, state: w.state, phase: Phase::Waiting },
            effects: Seq::empty(),
            request: Request::Wait,
        }),
        s.board != context.last_board && s.board == context.expect_board ==> outcome(w, input)
            == (Step {
            worker: Worker {
                context: AnalysisContext { last_board: s.board, ..idle(context) },
                state: if w.state == ChessboardState::OurTurn {
                    ChessboardState::OpponentTurn
                } else {
                    ChessboardState::OurTurn
                },
                phase: Phase::Waiting,
            },
            effects: seq![Effect::Moved { changed: context.expect_move }],
            request: Request::Wait,
        }),
        s.board != context.last_board && s.board != context.expect_board ==> outcome(w, input)
            == (Step {
            worker: Worker { context, state: w.state, phase: Phase::Confirming { sighting: s } },
            effects: Seq::empty(),
            request: Request::Confirm { camp: context.current_camp },
        }),
{
    reveal(outcome);
    if s.board == context.last_board {
        rule_nothing_new(w, input, context, s);
    } else if s.board == context.expect_board {
        rule_expected_board(w, input, context, s);
    } else {
        rule_unexpected_board(w, input, context, s);
    }
}

/// Our turn and the other side's are followed alike: the same board leads to
/// the same effects and the same request.
pub proof fn lemma_turns_are_alike(ours: Worker, theirs: Worker, input: Input, s: Sighting)
    requires
        reads(ours, input, s),
        ours.state == ChessboardState::OurTurn,
        theirs.state == ChessboardState::OpponentTurn,
        theirs.context == ours.context,
        theirs.phase == ours.phase,
    ensures
        outcome(ours, input).effects == outcome(theirs, input).effects,
        outcome(ours, input).request == outcome(theirs, input).request,
        outcome(ours, input).worker.phase == outcome(theirs, input).worker.phase,
        outcome(ours, input).worker.context == outcome(theirs, input).worker.context,
{
    let (context, seen) = board_read(ours, input)->0;
    assert(board_read(theirs, input) == Some((context, s)));
    if without_effect(context, s, input.now) {
        lemma_repeated_or_doubted(ours, input, context, s);
        lemma_repeated_or_doubted(theirs, input, context, s);
    } else {
        let (judged, same) = board_judged(ours, input)->0;
        assert(board_judged(theirs, input) == Some((judged, s)));
        lemma_turn(ours, input, judged, s);
        lemma_turn(theirs, input, judged, s);
    }
}

proof fn lemma_comparison(w: Worker, again: Input, difference: Input, s: Sighting, changed: Changed)
    requires
        w.phase == (Phase::Confirming { sighting: s }),
        again.reply == (Reply::Confirmed { board: Some(s.board) }),
        difference.reply == (Reply::Difference { changed, state: BoardChangeState::Move }),
        changed.camp != s.camp,
    ensures
        outcome(w, again) == (Step {
            worker: Worker { phase: Phase::Comparing { sighting: s }, ..w },
            effects: Seq::empty(),
            request: Request::Diff { last: w.context.last_board, board: s.board },
        }),
        outcome(outcome(w, again).worker, difference) == (Step {
            worker: Worker {
                context: AnalysisContext { last_board: s.board, ..w.context },
                state: w.state,
                phase: Phase::Analyzing { camp: s.camp, next: ChessboardState::OpponentTurn },
            },
            effects: seq![Effect::Moved { changed }],
            request: Request::Analyze { camp: s.camp, board: s.board },
        }),
{
    let second = Worker { phase: Phase::Comparing { sighting: s }, ..w };
    lemma_comparison_begins(w, again, s);
    lemma_comparison_ends(second, difference, s, changed);
}

proof fn lemma_comparison_begins(w: Worker, again: Input, s: Sighting)
    requires
        w.phase == (Phase::Confirming { sighting: s }),
        again.reply == (Reply::Confirmed { board: Some(s.board) }),
    ensures
        outcome(w, again) == (Step {
            worker: Worker { phase: Phase::Comparing { sighting: s }, ..w },
            effects: Seq::empty(),
            request: Request::Diff { last: w.context.last_board, board: s.board },
        }),
{
    reveal(outcome);
    rule_confirmed(w, again, s);
}

proof fn lemma_comparison_ends(w: Worker, difference: Input, s: Sighting, changed: Changed)
    requires
        w.phase == (Phase::Comparing { sighting: s }),
        difference.reply == (Reply::Difference { changed, state: BoardChangeState::Move }),
        changed.camp != s.camp,
    ensures
        outcome(w, difference) == (Step {
            worker: Worker {
                context: AnalysisContext { last_board: s.board, ..w.context },
                state: w.state,
                phase: Phase::Analyzing { camp: s.camp, next: ChessboardState::OpponentTurn },
            },
            effects: seq![Effect::Moved { changed }],
            request: Request::Analyze { camp: s.camp, board: s.board },
        }),
{
    reveal(outcome);
    rule_move_seen(w, difference, s, changed);
}

proof fn lemma_opinion(
    w: Worker,
    opinion: Input,
    camp: Camp,
    next: ChessboardState,
    result: BoardAnalysisResult,
)
    requires
        w.phase == (Phase::Analyzing { camp, next }),
        opinion.reply == (Reply::Analyzed { result: Some(result) }),
        opinion.settings.autoplay,
    ensures
        outcome(w, opinion).effects == seq![
            Effect::Play { expect_move: result.expect_move, camp, linger: true },
        ],
        outcome(w, opinion).worker.context.expect_board == result.expect_board,
        outcome(w, opinion).worker.context.expect_move == result.expect_move,
{
    reveal(outcome);
    rule_suggestion(w, opinion, camp, next, result);
}

/// A move of the other side is not missed. At either turn, with no move waiting,
/// a new board is confirmed, compared, reported and analysed, and with autoplay on
/// the answer is played for the side that was seen.
pub proof fn lemma_reply_is_answered(
    w: Worker,
    reading: Input,
    again: Input,
    difference: Input,
    opinion: Input,
    s: Sighting,
    changed: Changed,
    result: BoardAnalysisResult,
)
    requires
        reads(w, reading, s),
        w.state == ChessboardState::OurTurn || w.state == ChessboardState::OpponentTurn,
        !w.context.has_pending_click,
        s.board != w.context.last_board,
        s.board != w.context.expect_board,
        again.reply == (Reply::Confirmed { board: Some(s.board) }),
        difference.reply == (Reply::Difference { changed, state: BoardChangeState::Move }),
        changed.camp != s.camp,
        opinion.reply == (Reply::Analyzed { result: Some(result) }),
        opinion.settings.autoplay,
    ensures
        ({
            let first = outcome(w, reading);
            let second = outcome(first.worker, again);
            let third = outcome(second.worker, difference);
            let fourth = outcome(third.worker, opinion);
            &&& first.request is Confirm && first.effects.len() == 0
            &&& second.request == (Request::Diff { last: w.context.last_board, board: s.board })
            &&& second.effects.len() == 0
            &&& third.request == (Request::Analyze { camp: s.camp, board: s.board })
            &&& third.effects == seq![Effect::Moved { changed }]
            &&& fourth.effects == seq![
                Effect::Play { expect_move: result.expect_move, camp: s.camp, linger: true },
            ]
            &&& fourth.worker.context.expect_board == result.expect_board
        }),
{
    let (context, seen) = board_judged(w, reading)->0;
    assert(board_judged(w, reading) == Some((context, s)));
    lemma_turn(w, reading, context, s);
    let first = outcome(w, reading).worker;
    lemma_comparison(first, again, difference, s, changed);
    let third = outcome(outcome(first, again).worker, difference).worker;
    lemma_opinion(third, opinion, s.camp, ChessboardState::OpponentTurn, result);
}

} // verus!
