//! What the watcher remembers from one look at the screen to the next.
use crate::board::{blank_board, is_blank, Board, Camp, Changed};
use vstd::prelude::*;

verus! {

/// A second. Times are counted in nanoseconds from some common start.
pub const SECOND: u128 = 1_000_000_000;

/// How long a click has to take effect before the move is made again.
pub const ACTION_PATIENCE: u128 = 3 * SECOND;

/// How long the screen is left alone after a look for buttons while no board can
/// be read.
pub const MATCH_PAUSE: u128 = 5 * SECOND;

/// How long the screen is left alone after a look for buttons as a matter of
/// routine.
pub const ROUTINE_PAUSE: u128 = 6 * SECOND;

/// How long the board has to stay the same for such a look during a game.
pub const QUIET_TIME: u128 = 12 * SECOND;

/// How long to wait after a click that should uncover the board.
pub const DISMISSAL_PAUSE: u128 = 6 * SECOND;

/// How long to wait after the board was looked for anew.
pub const CALIBRATION_PAUSE: u128 = 2 * SECOND;

/// How many changes that are no moves are passed over before the watcher starts
/// from nothing.
pub const INVALID_CHANGES: usize = 3;

/// The time that has passed; none if the clock went back.
pub open spec fn elapsed(now: u128, earlier: u128) -> int {
    if now > earlier {
        now - earlier
    } else {
        0
    }
}

/// Whether something last done at `last`, if ever, may be done again.
pub open spec fn due(last: Option<u128>, now: u128, pause: u128) -> bool {
    match last {
        Some(time) => elapsed(now, time) > pause,
        None => true,
    }
}

pub fn is_due(last: Option<u128>, now: u128, pause: u128) -> (r: bool)
    ensures
        r == due(last, now, pause),
{
    match last {
        Some(time) => now.saturating_sub(time) > pause,
        None => true,
    }
}

/// What the user has switched on.
#[derive(Clone, Copy, Debug, PartialEq, Eq, Structural)]
pub struct Settings {
    /// Make the moves that the engine suggests.
    pub autoplay: bool,
    /// Go on to the next game when one is over.
    pub auto_match: bool,
}

/// How far the game on the screen is understood.
#[derive(Clone, Copy, Debug, PartialEq, Eq, Structural)]
pub enum ChessboardState {
    /// Nothing is known yet.
    Initial,
    /// The pieces stand as at the start of a game.
    StartPos,
    /// Our side is at play.
    OurTurn,
    /// The other side is at play.
    OpponentTurn,
    /// The board changed in a way that no move can.
    Invalid,
}

/// What is known of the game, and when things were last done.
#[derive(Debug)]
pub struct AnalysisContext {
    pub last_board: Board,
    pub expect_move: Changed,
    pub expect_board: Board,
    pub invalid_change_count: usize,
    pub has_pending_click: bool,
    pub last_action_time: Option<u128>,
    pub last_auto_match_time: Option<u128>,
    pub last_recalibrate_time: Option<u128>,
    pub last_board_change_time: u128,
    pub last_invalid_click_time: Option<u128>,
    pub current_camp: Camp,
}

impl AnalysisContext {
    pub fn new(now: u128) -> (r: AnalysisContext)
        ensures
            is_blank(r.last_board),
            is_blank(r.expect_board),
            r.expect_move.camp == Camp::Unknown,
            r.expect_move.from@ == Seq::<char>::empty(),
            r.expect_move.to@ == Seq::<char>::empty(),
            r.invalid_change_count == 0,
            !r.has_pending_click,
            r.last_action_time is None,
            r.last_auto_match_time is None,
            r.last_recalibrate_time is None,
            r.last_board_change_time == now,
            r.last_invalid_click_time is None,
            r.current_camp == Camp::Unknown,
    {
        AnalysisContext {
            last_board: blank_board(),
            expect_move: Changed::default(),
            expect_board: blank_board(),
            invalid_change_count: 0,
            has_pending_click: false,
            last_action_time: None,
            last_auto_match_time: None,
            last_recalibrate_time: None,
            last_board_change_time: now,
            last_invalid_click_time: None,
            current_camp: Camp::Unknown,
        }
    }

    /// A move waits to take effect just while it is known when it was made, and
    /// no more changes are counted than are passed over.
    pub open spec fn consistent(self) -> bool {
        &&& self.has_pending_click <==> self.last_action_time is Some
        &&& self.invalid_change_count <= INVALID_CHANGES
    }

    /// The context once no move waits to take effect.
    pub open spec fn settled(self) -> AnalysisContext {
        AnalysisContext { has_pending_click: false, last_action_time: None, ..self }
    }

    pub fn settle(&mut self)
        ensures
            *final(self) == old(self).settled(),
    {
        self.has_pending_click = false;
        self.last_action_time = None;
    }

    /// The context after a change that is no move: a few of them are counted,
    /// then the count starts again.
    pub open spec fn after_invalid_change(self) -> AnalysisContext {
        AnalysisContext {
            invalid_change_count: if self.invalid_change_count < INVALID_CHANGES {
                (self.invalid_change_count + 1) as usize
            } else {
                0
            },
            ..self
        }
    }

    /// How the game is understood after a change that is no move.
    pub open spec fn invalid_change_state(self) -> ChessboardState {
        if self.invalid_change_count < INVALID_CHANGES {
            ChessboardState::Invalid
        } else {
            ChessboardState::Initial
        }
    }

    /// Takes in a change that is no move: a few of them are passed over, then
    /// the watcher starts from nothing.
    pub fn handle_invalid_change(&mut self) -> (r: ChessboardState)
        ensures
            *final(self) == old(self).after_invalid_change(),
            r == old(self).invalid_change_state(),
            final(self).invalid_change_count <= INVALID_CHANGES,
    {
        if self.invalid_change_count < INVALID_CHANGES {
            self.invalid_change_count = self.invalid_change_count + 1;
            ChessboardState::Invalid
        } else {
            self.invalid_change_count = 0;
            ChessboardState::Initial
        }
    }

    /// Whether the board may be looked for anew.
    pub open spec fn may_recalibrate(self, now: u128) -> bool {
        match self.last_recalibrate_time {
            Some(time) => elapsed(now, time) >= CALIBRATION_PAUSE,
            None => true,
        }
    }

    pub fn can_recalibrate(&self, now: u128) -> (r: bool)
        ensures
            r == self.may_recalibrate(now),
    {
        match self.last_recalibrate_time {
            Some(time) => now.saturating_sub(time) >= CALIBRATION_PAUSE,
            None => true,
        }
    }

    /// Whether a move waits to take effect, and has waited too long.
    pub open spec fn overdue(self, now: u128) -> bool {
        self.has_pending_click && (self.last_action_time matches Some(time) && elapsed(now, time)
            > ACTION_PATIENCE)
    }

    pub fn is_overdue(&self, now: u128) -> (r: bool)
        ensures
            r == self.overdue(now),
    {
        match self.last_action_time {
            Some(time) => self.has_pending_click && now.saturating_sub(time) > ACTION_PATIENCE,
            None => false,
        }
    }
}

/// The context after this many changes that are no moves.
pub open spec fn after_invalid_changes(context: AnalysisContext, n: nat) -> AnalysisContext
    decreases n,
{
    if n == 0 {
        context
    } else {
        after_invalid_changes(context, (n - 1) as nat).after_invalid_change()
    }
}

/// From a count of nothing, three changes that are no moves are passed over, and
/// the fourth leads back to the beginning with a count of nothing. So it goes on
/// round and round: whether a change is passed over depends on its number alone.
/// Nothing but the count is touched, and it never exceeds three.
pub proof fn lemma_invalid_change_cycle(context: AnalysisContext, n: nat)
    requires
        context.invalid_change_count == 0,
    ensures
        after_invalid_changes(context, n) == (AnalysisContext {
            invalid_change_count: (n % 4) as usize,
            ..context
        }),
        after_invalid_changes(context, n).invalid_change_count <= INVALID_CHANGES,
        after_invalid_changes(context, n).invalid_change_state() == if n % 4 < 3 {
            ChessboardState::Invalid
        } else {
            ChessboardState::Initial
        },
    decreases n,
{
    if n > 0 {
        lemma_invalid_change_cycle(context, (n - 1) as nat);
    }
}

} // verus!
