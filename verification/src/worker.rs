//! The watcher: reads the board over and over, follows the game, asks the engine
//! and makes its moves.
//!
//! `transition` says what the watcher does with each answer it gets; the
//! functions that it is made of say what happens at each point of a look at the
//! screen. `Worker::step` does it.
use crate::analysis::BoardAnalysisResult;
use crate::board::{is_blank, same_board, Board, BoardChangeState, Camp, Changed};
use crate::buttons::{button_on, find_button, Button};
use crate::clicks::{dismissal, dismissal_point};
use crate::context::{
    due, elapsed, is_due, AnalysisContext, ChessboardState, Settings, DISMISSAL_PAUSE,
    MATCH_PAUSE, QUIET_TIME, ROUTINE_PAUSE,
};
use crate::frame::Frame;
use crate::laws::lemma_step_well_formed;
use crate::protocol::{accepts, Effect, Input, Output, Phase, Reply, Request, Sighting};
use vstd::prelude::*;

verus! {

/// The watcher: what it knows, how far it understands the game, and what it is
/// in the middle of.
#[derive(Debug)]
pub struct Worker {
    pub context: AnalysisContext,
    pub state: ChessboardState,
    pub phase: Phase,
}

/// Whether a game is being followed in this state.
pub open spec fn in_game(state: ChessboardState) -> bool {
    ||| state == ChessboardState::StartPos
    ||| state == ChessboardState::OurTurn
    ||| state == ChessboardState::OpponentTurn
}

impl Worker {
    /// What holds between any two steps.
    pub open spec fn well_formed(self) -> bool {
        let context = self.context;
        &&& context.consistent()
        &&& match self.phase {
            Phase::Routine { asked } => due(context.last_auto_match_time, asked, ROUTINE_PAUSE),
            Phase::Matching { asked } => due(context.last_auto_match_time, asked, MATCH_PAUSE),
            Phase::Measuring { asked } => due(
                context.last_invalid_click_time,
                asked,
                DISMISSAL_PAUSE,
            ),
            Phase::Calibrating => context.last_recalibrate_time is Some,
            Phase::Correcting => context.last_recalibrate_time is Some,
            Phase::Dismissed => context.last_invalid_click_time is Some,
            Phase::Doubting { sighting } => {
                &&& sighting.valid
                &&& context.has_pending_click
                &&& sighting.board != context.expect_board
            },
            Phase::Leaving { .. } => context.has_pending_click,
            Phase::Repeating { sighting } => {
                &&& sighting.valid
                &&& context.has_pending_click
                &&& sighting.board != context.expect_board
            },
            Phase::Confirming { sighting } => {
                &&& sighting.valid
                &&& self.state == ChessboardState::OurTurn || self.state
                    == ChessboardState::OpponentTurn
                &&& sighting.board != context.last_board
                &&& sighting.board != context.expect_board
            },
            Phase::Comparing { sighting } => {
                &&& sighting.valid
                &&& in_game(self.state)
                &&& sighting.board != context.last_board
            },
            Phase::Analyzing { next, .. } => in_game(next),
            Phase::Playing { next } => in_game(next),
            _ => true,
        }
    }

    /// Whether this is a watcher that has seen nothing yet.
    pub open spec fn fresh(self) -> bool {
        &&& self.phase is Waiting
        &&& self.state == ChessboardState::Initial
        &&& self.context.consistent()
        &&& !self.context.has_pending_click
    }
}

/// What comes of an answer: the watcher afterwards, what is to be done, and what
/// is asked for next.
pub struct Step {
    pub worker: Worker,
    pub effects: Seq<Effect>,
    pub request: Request,
}

impl Worker {
    pub open spec fn with_context(self, context: AnalysisContext) -> Worker {
        Worker { context, ..self }
    }

    pub open spec fn with_state(self, state: ChessboardState) -> Worker {
        Worker { state, ..self }
    }

    /// No move waits to take effect any more.
    pub open spec fn settled(self) -> Worker {
        self.with_context(self.context.settled())
    }

    /// Buttons were looked for at this time.
    pub open spec fn matched(self, time: u128) -> Worker {
        self.with_context(AnalysisContext { last_auto_match_time: Some(time), ..self.context })
    }

    /// This is the board now.
    pub open spec fn following(self, board: Board) -> Worker {
        self.with_context(AnalysisContext { last_board: board, ..self.context })
    }

    /// Asks for something.
    pub open spec fn asks(self, phase: Phase, request: Request) -> Step {
        self.does(Seq::empty(), phase, request)
    }

    /// Has something done, then asks for something.
    pub open spec fn does(self, effects: Seq<Effect>, phase: Phase, request: Request) -> Step {
        Step { worker: Worker { phase, ..self }, effects, request }
    }

    /// Ends a look at the screen.
    pub open spec fn waits(self, effects: Seq<Effect>) -> Step {
        self.does(effects, Phase::Waiting, Request::Wait)
    }
}

/// Whether it is time to look for buttons as a matter of routine: not while a
/// game is played.
pub open spec fn routine_due(w: Worker, now: u128, settings: Settings) -> bool {
    &&& settings.auto_match
    &&& due(w.context.last_auto_match_time, now, ROUTINE_PAUSE)
    &&& w.state == ChessboardState::Initial || elapsed(now, w.context.last_board_change_time)
        > QUIET_TIME
}

/// A look at the screen begins. Moves that wait to take effect are forgotten if
/// the user makes the moves.
pub open spec fn begin(w: Worker, now: u128, settings: Settings) -> Step {
    let w = if settings.autoplay {
        w
    } else {
        w.settled()
    };
    if routine_due(w, now, settings) {
        w.asks(Phase::Routine { asked: now }, Request::Screen)
    } else {
        look(w)
    }
}

/// Reads the board. The side is found out anew for each game.
pub open spec fn look(w: Worker) -> Step {
    let camp = if w.state == ChessboardState::Initial {
        Camp::Unknown
    } else {
        w.context.current_camp
    };
    w.with_context(AnalysisContext { current_camp: camp, ..w.context }).asks(
        Phase::Looking { again: false },
        Request::Board { camp },
    )
}

/// Clicks a button that leads out of a finished game. With a new game all moves
/// are forgotten.
pub open spec fn press(w: Worker, asked: u128, button: Button) -> Step {
    match button {
        Button::Back { x, y } => w.matched(asked).waits(seq![Effect::Click { x, y }]),
        Button::PlayAgain { x, y } => w.matched(asked).settled().with_state(
            ChessboardState::Initial,
        ).waits(seq![Effect::Click { x, y }]),
    }
}

/// What follows a routine look for buttons.
pub open spec fn after_routine(w: Worker, asked: u128, frame: Frame) -> Step {
    match button_on(frame) {
        Some(button) => press(w, asked, button),
        None => look(w.matched(asked)),
    }
}

/// What follows a look for buttons without a board.
pub open spec fn after_matching(w: Worker, asked: u128, frame: Frame) -> Step {
    match button_on(frame) {
        Some(button) => press(w, asked, button),
        None => w.waits(Seq::empty()),
    }
}

/// Finds out where the board is.
pub open spec fn recalibrate(w: Worker, now: u128, phase: Phase) -> Step {
    w.with_context(
        AnalysisContext { last_recalibrate_time: Some(now), ..w.context },
    ).asks(phase, Request::Recalibrate)
}

/// What follows the reading of the board.
pub open spec fn after_looking(
    w: Worker,
    again: bool,
    sighting: Option<Sighting>,
    now: u128,
    settings: Settings,
) -> Step {
    match sighting {
        None => if !again && w.context.may_recalibrate(now) {
            recalibrate(w, now, Phase::Calibrating)
        } else {
            uncover(w, now, settings)
        },
        Some(s) => {
            let camp = if s.camp == Camp::Unknown {
                w.context.current_camp
            } else {
                s.camp
            };
            let w = w.with_context(AnalysisContext { current_camp: camp, ..w.context });
            if s.valid {
                follow(w, s, now, settings)
            } else if w.context.may_recalibrate(now) {
                recalibrate(w, now, Phase::Correcting)
            } else {
                uncover(w, now, settings)
            }
        },
    }
}

/// What follows the search for the board: where it was found, it is read again.
pub open spec fn after_calibration(
    w: Worker,
    success: bool,
    phase: Phase,
    now: u128,
    settings: Settings,
) -> Step {
    if success {
        w.asks(phase, Request::Board { camp: w.context.current_camp })
    } else {
        uncover(w, now, settings)
    }
}

/// What follows the second reading of a board that could not be.
pub open spec fn after_looking_again(
    w: Worker,
    sighting: Option<Sighting>,
    now: u128,
    settings: Settings,
) -> Step {
    match sighting {
        Some(s) if s.valid => follow(w, s, now, settings),
        _ => uncover(w, now, settings),
    }
}

/// Without a board, clicks once in a while to get rid of what may hide it.
pub open spec fn uncover(w: Worker, now: u128, settings: Settings) -> Step {
    if due(w.context.last_invalid_click_time, now, DISMISSAL_PAUSE) {
        w.asks(Phase::Measuring { asked: now }, Request::WindowSize)
    } else {
        try_match(w, now, settings)
    }
}

/// What follows when the size of the window is known.
pub open spec fn after_measuring(
    w: Worker,
    asked: u128,
    width: u32,
    height: u32,
    now: u128,
    settings: Settings,
) -> Step {
    match dismissal(width, height) {
        Some((x, y)) => w.with_context(
            AnalysisContext { last_invalid_click_time: Some(asked), ..w.context },
        ).does(seq![Effect::Click { x, y }], Phase::Dismissed, Request::Proceed),
        None => try_match(w, now, settings),
    }
}

/// Without a board, looks for buttons once in a while.
pub open spec fn try_match(w: Worker, now: u128, settings: Settings) -> Step {
    if settings.auto_match && due(w.context.last_auto_match_time, now, MATCH_PAUSE) {
        w.asks(Phase::Matching { asked: now }, Request::Screen)
    } else {
        w.waits(Seq::empty())
    }
}

/// Takes in a valid board. If a move did not take effect in time, it is made
/// again, unless the game turns out to be over.
pub open spec fn follow(w: Worker, s: Sighting, now: u128, settings: Settings) -> Step {
    let w = if s.board == w.context.last_board {
        w
    } else {
        w.with_context(AnalysisContext { last_board_change_time: now, ..w.context })
    };
    if w.context.has_pending_click && s.board == w.context.expect_board {
        judge(w.settled(), s)
    } else if w.context.overdue(now) {
        if settings.auto_match {
            w.asks(Phase::Doubting { sighting: s }, Request::Screen)
        } else {
            repeat(w, s)
        }
    } else {
        judge(w, s)
    }
}

/// Makes the expected move again.
pub open spec fn repeat(w: Worker, s: Sighting) -> Step {
    w.does(
        seq![
            Effect::Play { expect_move: w.context.expect_move, camp: s.camp, linger: false },
        ],
        Phase::Repeating { sighting: s },
        Request::Proceed,
    )
}

/// What follows a look for buttons after a move that did not take effect.
pub open spec fn after_doubting(w: Worker, s: Sighting, frame: Frame) -> Step {
    match button_on(frame) {
        Some(Button::Back { x, y }) => w.does(
            seq![Effect::Click { x, y }],
            Phase::Leaving { new_game: false },
            Request::Proceed,
        ),
        Some(Button::PlayAgain { x, y }) => w.does(
            seq![Effect::Click { x, y }],
            Phase::Leaving { new_game: true },
            Request::Proceed,
        ),
        None => repeat(w, s),
    }
}

/// What follows when the game was left.
pub open spec fn after_leaving(w: Worker, new_game: bool, now: u128) -> Step {
    let w = w.matched(now).settled();
    if new_game {
        w.with_state(ChessboardState::Initial).waits(Seq::empty())
    } else {
        w.waits(Seq::empty())
    }
}

/// What follows when a move was made again.
pub open spec fn after_repeating(w: Worker, s: Sighting, now: u128) -> Step {
    judge(w.with_context(AnalysisContext { last_action_time: Some(now), ..w.context }), s)
}

/// Decides what a valid board means for the game.
pub open spec fn judge(w: Worker, s: Sighting) -> Step {
    match w.state {
        ChessboardState::Initial => analyze(
            w.following(s.board),
            s,
            seq![Effect::UpdateUi { camp: s.camp, board: s.board }],
            if s.startpos {
                ChessboardState::StartPos
            } else if s.camp == Camp::Red {
                ChessboardState::OurTurn
            } else {
                ChessboardState::OpponentTurn
            },
        ),
        ChessboardState::StartPos => if s.startpos && s.camp != Camp::Red {
            w.following(s.board).with_state(ChessboardState::OpponentTurn).waits(
                seq![Effect::UpdateUi { camp: s.camp, board: s.board }],
            )
        } else if s.board == w.context.last_board {
            w.waits(Seq::empty())
        } else if s.startpos {
            analyze(
                w.following(s.board),
                s,
                seq![Effect::UpdateUi { camp: s.camp, board: s.board }],
                ChessboardState::OurTurn,
            )
        } else {
            w.asks(
                Phase::Comparing { sighting: s },
                Request::Diff { last: w.context.last_board, board: s.board },
            )
        },
        ChessboardState::OurTurn | ChessboardState::OpponentTurn => if s.board
            == w.context.last_board {
            w.waits(Seq::empty())
        } else if s.board == w.context.expect_board {
            w.settled().following(s.board).with_state(other_turn(w.state)).waits(
                seq![Effect::Moved { changed: w.context.expect_move }],
            )
        } else {
            w.asks(
                Phase::Confirming { sighting: s },
                Request::Confirm { camp: w.context.current_camp },
            )
        },
        ChessboardState::Invalid => w.with_state(ChessboardState::Initial).waits(Seq::empty()),
    }
}

/// Whose turn it is after a move.
pub open spec fn other_turn(state: ChessboardState) -> ChessboardState {
    if state == ChessboardState::OurTurn {
        ChessboardState::OpponentTurn
    } else {
        ChessboardState::OurTurn
    }
}

/// What follows when the board was read again: it counts only if it holds still.
pub open spec fn after_confirming(w: Worker, s: Sighting, board: Option<Board>) -> Step {
    if board == Some(s.board) {
        w.asks(
            Phase::Comparing { sighting: s },
            Request::Diff { last: w.context.last_board, board: s.board },
        )
    } else {
        w.waits(seq![Effect::Rest])
    }
}

/// What follows when it is known how the board changed.
pub open spec fn after_comparing(
    w: Worker,
    s: Sighting,
    changed: Changed,
    state: BoardChangeState,
) -> Step {
    match state {
        BoardChangeState::Move => if s.camp == changed.camp {
            w.following(s.board).with_state(ChessboardState::OurTurn).waits(
                seq![Effect::Moved { changed }],
            )
        } else {
            analyze(
                w.following(s.board),
                s,
                seq![Effect::Moved { changed }],
                ChessboardState::OpponentTurn,
            )
        },
        BoardChangeState::One => invalid_change(w).waits(Seq::empty()),
        BoardChangeState::Unknown => w.following(s.board).with_state(
            ChessboardState::Initial,
        ).waits(seq![Effect::UpdateUi { camp: s.camp, board: s.board }]),
    }
}

/// The watcher after a change that is no move: a few of them are passed over,
/// then it starts from nothing.
pub open spec fn invalid_change(w: Worker) -> Worker {
    w.with_context(w.context.after_invalid_change()).with_state(w.context.invalid_change_state())
}

/// Asks the engine.
pub open spec fn analyze(
    w: Worker,
    s: Sighting,
    effects: Seq<Effect>,
    next: ChessboardState,
) -> Step {
    w.does(
        effects,
        Phase::Analyzing { camp: s.camp, next },
        Request::Analyze { camp: s.camp, board: s.board },
    )
}

/// What follows the engine's answer: the move that it suggests is expected and,
/// if the user wants it, made.
pub open spec fn after_analyzing(
    w: Worker,
    camp: Camp,
    next: ChessboardState,
    result: Option<BoardAnalysisResult>,
    settings: Settings,
) -> Step {
    match result {
        None => w.with_state(next).waits(Seq::empty()),
        Some(BoardAnalysisResult { expect_move, expect_board }) => {
            let w = w.with_context(AnalysisContext { expect_move, expect_board, ..w.context });
            if settings.autoplay {
                w.does(
                    seq![Effect::Play { expect_move, camp, linger: true }],
                    Phase::Playing { next },
                    Request::Proceed,
                )
            } else {
                w.with_state(next).waits(Seq::empty())
            }
        },
    }
}

/// What follows when the suggested move was made.
pub open spec fn after_playing(w: Worker, next: ChessboardState, now: u128) -> Step {
    w.with_context(
        AnalysisContext { has_pending_click: true, last_action_time: Some(now), ..w.context },
    ).with_state(next).waits(Seq::empty())
}

/// What comes of an answer.
pub open spec fn transition(w: Worker, input: Input) -> Step {
    let now = input.now;
    let settings = input.settings;
    match (w.phase, input.reply) {
        (Phase::Waiting, Reply::Tick) => begin(w, now, settings),
        (Phase::Routine { asked }, Reply::Screen { frame }) => after_routine(w, asked, frame),
        (Phase::Looking { again }, Reply::Board { sighting }) => after_looking(
            w,
            again,
            sighting,
            now,
            settings,
        ),
        (Phase::Calibrating, Reply::Recalibrated { success }) => after_calibration(
            w,
            success,
            Phase::Looking { again: true },
            now,
            settings,
        ),
        (Phase::Correcting, Reply::Recalibrated { success }) => after_calibration(
            w,
            success,
            Phase::LookingAgain,
            now,
            settings,
        ),
        (Phase::LookingAgain, Reply::Board { sighting }) => after_looking_again(
            w,
            sighting,
            now,
            settings,
        ),
        (Phase::Measuring { asked }, Reply::Size { width, height }) => after_measuring(
            w,
            asked,
            width,
            height,
            now,
            settings,
        ),
        (Phase::Dismissed, Reply::Ready) => try_match(w, now, settings),
        (Phase::Matching { asked }, Reply::Screen { frame }) => after_matching(w, asked, frame),
        (Phase::Doubting { sighting }, Reply::Screen { frame }) => after_doubting(
            w,
            sighting,
            frame,
        ),
        (Phase::Leaving { new_game }, Reply::Ready) => after_leaving(w, new_game, now),
        (Phase::Repeating { sighting }, Reply::Ready) => after_repeating(w, sighting, now),
        (Phase::Confirming { sighting }, Reply::Confirmed { board }) => after_confirming(
            w,
            sighting,
            board,
        ),
        (Phase::Comparing { sighting }, Reply::Difference { changed, state }) => after_comparing(
            w,
            sighting,
            changed,
            state,
        ),
        (Phase::Analyzing { camp, next }, Reply::Analyzed { result }) => after_analyzing(
            w,
            camp,
            next,
            result,
            settings,
        ),
        (Phase::Playing { next }, Reply::Ready) => after_playing(w, next, now),
        _ => w.asks(Phase::Finished, Request::Finish),
    }
}

impl Output {
    /// Whether this output, and the watcher afterwards, are what should come of
    /// an answer.
    pub open spec fn agrees(self, after: Worker, step: Step) -> bool {
        &&& after == step.worker
        &&& self.effects@ == step.effects
        &&& self.request == step.request
    }
}

fn only(effect: Effect) -> (effects: Vec<Effect>)
    ensures
        effects@ == seq![effect],
{
    let mut effects: Vec<Effect> = Vec::new();
    effects.push(effect);
    effects
}

impl Worker {
    /// A watcher that has seen nothing yet.
    pub fn new(now: u128) -> (w: Worker)
        ensures
            w.fresh(),
            w.well_formed(),
            is_blank(w.context.last_board),
            is_blank(w.context.expect_board),
            w.context.expect_move.camp == Camp::Unknown,
            w.context.expect_move.from@ == Seq::<char>::empty(),
            w.context.expect_move.to@ == Seq::<char>::empty(),
            w.context.invalid_change_count == 0,
            w.context.last_auto_match_time is None,
            w.context.last_recalibrate_time is None,
            w.context.last_board_change_time == now,
            w.context.last_invalid_click_time is None,
            w.context.current_camp == Camp::Unknown,
    {
        Worker {
            context: AnalysisContext::new(now),
            state: ChessboardState::Initial,
            phase: Phase::Waiting,
        }
    }

    fn ask(&mut self, phase: Phase, request: Request) -> (r: Output)
        ensures
            r.agrees(*final(self), old(self).asks(phase, request)),
    {
        self.phase = phase;
        Output { effects: Vec::new(), request }
    }

    fn act(&mut self, effect: Effect, phase: Phase, request: Request) -> (r: Output)
        ensures
            r.agrees(*final(self), old(self).does(seq![effect], phase, request)),
    {
        self.phase = phase;
        Output { effects: only(effect), request }
    }

    fn wait(&mut self) -> (r: Output)
        ensures
            r.agrees(*final(self), old(self).waits(Seq::empty())),
    {
        self.ask(Phase::Waiting, Request::Wait)
    }

    fn wait_after(&mut self, effect: Effect) -> (r: Output)
        ensures
            r.agrees(*final(self), old(self).waits(seq![effect])),
    {
        self.act(effect, Phase::Waiting, Request::Wait)
    }

    fn begin(&mut self, now: u128, settings: Settings) -> (r: Output)
        ensures
            r.agrees(*final(self), begin(*old(self), now, settings)),
    {
        if !settings.autoplay {
            self.context.settle();
        }
        let quiet = now.saturating_sub(self.context.last_board_change_time) > QUIET_TIME;
        if settings.auto_match && is_due(self.context.last_auto_match_time, now, ROUTINE_PAUSE) && (
        self.state == ChessboardState::Initial || quiet) {
            self.ask(Phase::Routine { asked: now }, Request::Screen)
        } else {
            self.look()
        }
    }

    fn look(&mut self) -> (r: Output)
        ensures
            r.agrees(*final(self), look(*old(self))),
    {
        if self.state == ChessboardState::Initial {
            self.context.current_camp = Camp::Unknown;
        }
        let camp = self.context.current_camp;
        self.ask(Phase::Looking { again: false }, Request::Board { camp })
    }

    fn press(&mut self, asked: u128, button: Button) -> (r: Output)
        ensures
            r.agrees(*final(self), press(*old(self), asked, button)),
    {
        self.context.last_auto_match_time = Some(asked);
        match button {
            Button::Back { x, y } => self.wait_after(Effect::Click { x, y }),
            Button::PlayAgain { x, y } => {
                self.context.settle();
                self.state = ChessboardState::Initial;
                self.wait_after(Effect::Click { x, y })
            },
        }
    }

    fn after_routine(&mut self, asked: u128, frame: &Frame) -> (r: Output)
        ensures
            r.agrees(*final(self), after_routine(*old(self), asked, *frame)),
    {
        match find_button(frame) {
            Some(button) => self.press(asked, button),
            None => {
                self.context.last_auto_match_time = Some(asked);
                self.look()
            },
        }
    }

    fn after_matching(&mut self, asked: u128, frame: &Frame) -> (r: Output)
        ensures
            r.agrees(*final(self), after_matching(*old(self), asked, *frame)),
    {
        match find_button(frame) {
            Some(button) => self.press(asked, button),
            None => self.wait(),
        }
    }

    fn recalibrate(&mut self, now: u128, phase: Phase) -> (r: Output)
        ensures
            r.agrees(*final(self), recalibrate(*old(self), now, phase)),
    {
        self.context.last_recalibrate_time = Some(now);
        self.ask(phase, Request::Recalibrate)
    }

    fn after_looking(
        &mut self,
        again: bool,
        sighting: Option<Sighting>,
        now: u128,
        settings: Settings,
    ) -> (r: Output)
        ensures
            r.agrees(*final(self), after_looking(*old(self), again, sighting, now, settings)),
    {
        match sighting {
            None => if !again && self.context.can_recalibrate(now) {
                self.recalibrate(now, Phase::Calibrating)
            } else {
                self.handle_invalid_board_click(now, settings)
            },
            Some(s) => {
                if s.camp != Camp::Unknown {
                    self.context.current_camp = s.camp;
                }
                if s.valid {
                    self.follow(s, now, settings)
                } else if self.context.can_recalibrate(now) {
                    self.recalibrate(now, Phase::Correcting)
                } else {
                    self.handle_invalid_board_click(now, settings)
                }
            },
        }
    }

    fn after_calibration(&mut self, success: bool, phase: Phase, now: u128, settings: Settings) -> (r:
        Output)
        ensures
            r.agrees(*final(self), after_calibration(*old(self), success, phase, now, settings)),
    {
        if success {
            let camp = self.context.current_camp;
            self.ask(phase, Request::Board { camp })
        } else {
            self.handle_invalid_board_click(now, settings)
        }
    }

    fn after_looking_again(
        &mut self,
        sighting: Option<Sighting>,
        now: u128,
        settings: Settings,
    ) -> (r: Output)
        ensures
            r.agrees(*final(self), after_looking_again(*old(self), sighting, now, settings)),
    {
        if let Some(s) = sighting {
            if s.valid {
                return self.follow(s, now, settings);
            }
        }
        self.handle_invalid_board_click(now, settings)
    }

    fn handle_invalid_board_click(&mut self, now: u128, settings: Settings) -> (r: Output)
        ensures
            r.agrees(*final(self), uncover(*old(self), now, settings)),
    {
        if is_due(self.context.last_invalid_click_time, now, DISMISSAL_PAUSE) {
            self.ask(Phase::Measuring { asked: now }, Request::WindowSize)
        } else {
            self.try_auto_match(now, settings)
        }
    }

    fn after_measuring(
        &mut self,
        asked: u128,
        width: u32,
        height: u32,
        now: u128,
        settings: Settings,
    ) -> (r: Output)
        ensures
            r.agrees(
                *final(self),
                after_measuring(*old(self), asked, width, height, now, settings),
            ),
    {
        match dismissal_point(width, height) {
            Some((x, y)) => {
                self.context.last_invalid_click_time = Some(asked);
                self.act(Effect::Click { x, y }, Phase::Dismissed, Request::Proceed)
            },
            None => self.try_auto_match(now, settings),
        }
    }

    fn try_auto_match(&mut self, now: u128, settings: Settings) -> (r: Output)
        ensures
            r.agrees(*final(self), try_match(*old(self), now, settings)),
    {
        if settings.auto_match && is_due(self.context.last_auto_match_time, now, MATCH_PAUSE) {
            self.ask(Phase::Matching { asked: now }, Request::Screen)
        } else {
            self.wait()
        }
    }

    fn follow(&mut self, s: Sighting, now: u128, settings: Settings) -> (r: Output)
        ensures
            r.agrees(*final(self), follow(*old(self), s, now, settings)),
    {
        if !same_board(&s.board, &self.context.last_board) {
            self.context.last_board_change_time = now;
        }
        if self.context.has_pending_click && same_board(&s.board, &self.context.expect_board) {
            self.context.settle();
            self.judge(s)
        } else if self.context.is_overdue(now) {
            if settings.auto_match {
                self.ask(Phase::Doubting { sighting: s }, Request::Screen)
            } else {
                self.repeat(s)
            }
        } else {
            self.judge(s)
        }
    }

    fn repeat(&mut self, s: Sighting) -> (r: Output)
        ensures
            r.agrees(*final(self), repeat(*old(self), s)),
    {
        let expect_move = self.context.expect_move.clone();
        self.act(
            Effect::Play { expect_move, camp: s.camp, linger: false },
            Phase::Repeating { sighting: s },
            Request::Proceed,
        )
    }

    fn after_doubting(&mut self, s: Sighting, frame: &Frame) -> (r: Output)
        ensures
            r.agrees(*final(self), after_doubting(*old(self), s, *frame)),
    {
        match find_button(frame) {
            Some(Button::Back { x, y }) => self.act(
                Effect::Click { x, y },
                Phase::Leaving { new_game: false },
                Request::Proceed,
            ),
            Some(Button::PlayAgain { x, y }) => self.act(
                Effect::Click { x, y },
                Phase::Leaving { new_game: true },
                Request::Proceed,
            ),
            None => self.repeat(s),
        }
    }

    fn after_leaving(&mut self, new_game: bool, now: u128) -> (r: Output)
        ensures
            r.agrees(*final(self), after_leaving(*old(self), new_game, now)),
    {
        self.context.last_auto_match_time = Some(now);
        self.context.settle();
        if new_game {
            self.state = ChessboardState::Initial;
        }
        self.wait()
    }

    fn after_repeating(&mut self, s: Sighting, now: u128) -> (r: Output)
        ensures
            r.agrees(*final(self), after_repeating(*old(self), s, now)),
    {
        self.context.last_action_time = Some(now);
        self.judge(s)
    }

    fn judge(&mut self, s: Sighting) -> (r: Output)
        ensures
            r.agrees(*final(self), judge(*old(self), s)),
    {
        match self.state {
            ChessboardState::Initial => {
                self.context.last_board = s.board;
                let next = if s.startpos {
                    ChessboardState::StartPos
                } else if s.camp == Camp::Red {
                    ChessboardState::OurTurn
                } else {
                    ChessboardState::OpponentTurn
                };
                self.analyze_board(s, Effect::UpdateUi { camp: s.camp, board: s.board }, next)
            },
            ChessboardState::StartPos => self.judge_start(s),
            ChessboardState::OurTurn => self.judge_turn(s),
            ChessboardState::OpponentTurn => self.judge_turn(s),
            ChessboardState::Invalid => {
                self.state = ChessboardState::Initial;
                self.wait()
            },
        }
    }

    fn judge_start(&mut self, s: Sighting) -> (r: Output)
        requires
            old(self).state == ChessboardState::StartPos,
        ensures
            r.agrees(*final(self), judge(*old(self), s)),
    {
        if s.startpos && s.camp != Camp::Red {
            self.context.last_board = s.board;
            self.state = ChessboardState::OpponentTurn;
            self.wait_after(Effect::UpdateUi { camp: s.camp, board: s.board })
        } else if same_board(&s.board, &self.context.last_board) {
            self.wait()
        } else if s.startpos {
            self.context.last_board = s.board;
            self.analyze_board(
                s,
                Effect::UpdateUi { camp: s.camp, board: s.board },
                ChessboardState::OurTurn,
            )
        } else {
            self.compare(s)
        }
    }

    fn judge_turn(&mut self, s: Sighting) -> (r: Output)
        requires
            old(self).state == ChessboardState::OurTurn || old(self).state
                == ChessboardState::OpponentTurn,
        ensures
            r.agrees(*final(self), judge(*old(self), s)),
    {
        if same_board(&s.board, &self.context.last_board) {
            self.wait()
        } else if same_board(&s.board, &self.context.expect_board) {
            self.context.settle();
            self.context.last_board = s.board;
            self.state = if self.state == ChessboardState::OurTurn {
                ChessboardState::OpponentTurn
            } else {
                ChessboardState::OurTurn
            };
            let changed = self.context.expect_move.clone();
            self.wait_after(Effect::Moved { changed })
        } else {
            let camp = self.context.current_camp;
            self.ask(Phase::Confirming { sighting: s }, Request::Confirm { camp })
        }
    }

    fn compare(&mut self, s: Sighting) -> (r: Output)
        ensures
            r.agrees(
                *final(self),
                old(self).asks(
                    Phase::Comparing { sighting: s },
                    Request::Diff { last: old(self).context.last_board, board: s.board },
                ),
            ),
    {
        let last = self.context.last_board;
        self.ask(Phase::Comparing { sighting: s }, Request::Diff { last, board: s.board })
    }

    fn confirm_board(&mut self, s: Sighting, board: Option<Board>) -> (r: Output)
        ensures
            r.agrees(*final(self), after_confirming(*old(self), s, board)),
    {
        if let Some(again) = board {
            if same_board(&again, &s.board) {
                return self.compare(s);
            }
        }
        self.wait_after(Effect::Rest)
    }

    fn after_comparing(&mut self, s: Sighting, changed: Changed, state: BoardChangeState) -> (r:
        Output)
        ensures
            r.agrees(*final(self), after_comparing(*old(self), s, changed, state)),
    {
        match state {
            BoardChangeState::Move => {
                self.context.last_board = s.board;
                if s.camp == changed.camp {
                    self.state = ChessboardState::OurTurn;
                    self.wait_after(Effect::Moved { changed })
                } else {
                    self.analyze_board(s, Effect::Moved { changed }, ChessboardState::OpponentTurn)
                }
            },
            BoardChangeState::One => {
                self.state = self.context.handle_invalid_change();
                self.wait()
            },
            BoardChangeState::Unknown => {
                self.context.last_board = s.board;
                self.state = ChessboardState::Initial;
                self.wait_after(Effect::UpdateUi { camp: s.camp, board: s.board })
            },
        }
    }

    fn analyze_board(&mut self, s: Sighting, effect: Effect, next: ChessboardState) -> (r: Output)
        ensures
            r.agrees(*final(self), analyze(*old(self), s, seq![effect], next)),
    {
        self.act(
            effect,
            Phase::Analyzing { camp: s.camp, next },
            Request::Analyze { camp: s.camp, board: s.board },
        )
    }

    fn after_analyzing(
        &mut self,
        camp: Camp,
        next: ChessboardState,
        result: Option<BoardAnalysisResult>,
        settings: Settings,
    ) -> (r: Output)
        ensures
            r.agrees(*final(self), after_analyzing(*old(self), camp, next, result, settings)),
    {
        if let Some(BoardAnalysisResult { expect_move, expect_board }) = result {
            self.context.expect_move = expect_move.clone();
            self.context.expect_board = expect_board;
            if settings.autoplay {
                return self.act(
                    Effect::Play { expect_move, camp, linger: true },
                    Phase::Playing { next },
                    Request::Proceed,
                );
            }
        }
        self.state = next;
        self.wait()
    }

    fn after_playing(&mut self, next: ChessboardState, now: u128) -> (r: Output)
        ensures
            r.agrees(*final(self), after_playing(*old(self), next, now)),
    {
        self.context.has_pending_click = true;
        self.context.last_action_time = Some(now);
        self.state = next;
        self.wait()
    }

    /// Takes an answer to what was last asked for, and says what is to be done
    /// and what is asked for next.
    pub fn step(&mut self, input: Input) -> (r: Output)
        requires
            accepts(old(self).phase, input.reply),
        ensures
            r.agrees(*final(self), transition(*old(self), input)),
            old(self).well_formed() ==> final(self).well_formed(),
    {
        proof {
            if self.well_formed() {
                lemma_step_well_formed(*self, input);
            }
        }
        let now: u128 = input.now;
        let settings = input.settings;
        match (self.phase, input.reply) {
            (Phase::Waiting, Reply::Tick) => self.begin(now, settings),
            (Phase::Routine { asked }, Reply::Screen { frame }) => self.after_routine(
                asked,
                &frame,
            ),
            (Phase::Looking { again }, Reply::Board { sighting }) => self.after_looking(
                again,
                sighting,
                now,
                settings,
            ),
            (Phase::Calibrating, Reply::Recalibrated { success }) => self.after_calibration(
                success,
                Phase::Looking { again: true },
                now,
                settings,
            ),
            (Phase::Correcting, Reply::Recalibrated { success }) => self.after_calibration(
                success,
                Phase::LookingAgain,
                now,
                settings,
            ),
            (Phase::LookingAgain, Reply::Board { sighting }) => self.after_looking_again(
                sighting,
                now,
                settings,
            ),
            (Phase::Measuring { asked }, Reply::Size { width, height }) => self.after_measuring(
                asked,
                width,
                height,
                now,
                settings,
            ),
            (Phase::Dismissed, Reply::Ready) => self.try_auto_match(now, settings),
            (Phase::Matching { asked }, Reply::Screen { frame }) => self.after_matching(
                asked,
                &frame,
            ),
            (Phase::Doubting { sighting }, Reply::Screen { frame }) => self.after_doubting(
                sighting,
                &frame,
            ),
            (Phase::Leaving { new_game }, Reply::Ready) => self.after_leaving(new_game, now),
            (Phase::Repeating { sighting }, Reply::Ready) => self.after_repeating(sighting, now),
            (Phase::Confirming { sighting }, Reply::Confirmed { board }) => self.confirm_board(
                sighting,
                board,
            ),
            (
                Phase::Comparing { sighting },
                Reply::Difference { changed, state },
            ) => self.after_comparing(sighting, changed, state),
            (Phase::Analyzing { camp, next }, Reply::Analyzed { result }) => self.after_analyzing(
                camp,
                next,
                result,
                settings,
            ),
            (Phase::Playing { next }, Reply::Ready) => self.after_playing(next, now),
            _ => self.ask(Phase::Finished, Request::Finish),
        }
    }
}

} // verus!
