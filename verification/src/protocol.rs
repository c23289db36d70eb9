//! What the watcher asks for, what it is told, and what it has done.
//!
//! The watcher itself neither looks at the screen nor moves the mouse. It asks
//! its host for one thing at a time, and decides from the answer what is to be
//! done and what to ask for next.
use crate::analysis::BoardAnalysisResult;
use crate::board::{Board, BoardChangeState, Camp, Changed};
use crate::context::{ChessboardState, Settings};
use crate::frame::Frame;
use vstd::prelude::*;

verus! {

/// A board that was read off the screen, and what the rules say of it.
#[derive(Clone, Copy, Debug)]
pub struct Sighting {
    pub camp: Camp,
    pub board: Board,
    /// Whether it is a board of the game at all.
    pub valid: bool,
    /// Whether the pieces stand as at the start of a game.
    pub startpos: bool,
}

/// Something to be done, in the order given, before the next request is met.
#[derive(Debug)]
pub enum Effect {
    /// Click on this pixel of the window.
    Click { x: u32, y: u32 },
    /// Make a move on the board that `camp` sees; after a moment, if asked to
    /// linger.
    Play { expect_move: Changed, camp: Camp, linger: bool },
    /// Show this board, from the side of `camp`.
    UpdateUi { camp: Camp, board: Board },
    /// Report that this move was made.
    Moved { changed: Changed },
    /// Wait as long as the user set for a board that does not hold still.
    Rest,
}

/// What the watcher asks for.
#[derive(Clone, Copy, Debug)]
pub enum Request {
    /// Wait as long as the user set between two looks, unless told to stop.
    Wait,
    /// A picture of the whole window.
    Screen,
    /// The board on the screen, given the side that is known from before.
    Board { camp: Camp },
    /// The board on the screen once more, after a tenth of a second.
    Confirm { camp: Camp },
    /// Find out anew where the board is.
    Recalibrate,
    /// The size of the whole window.
    WindowSize,
    /// What happened between two boards.
    Diff { last: Board, board: Board },
    /// The engine's opinion of a board.
    Analyze { camp: Camp, board: Board },
    /// Nothing but the time at which the effects are done.
    Proceed,
    /// Nothing any more.
    Finish,
}

/// What the watcher is told.
#[derive(Debug)]
pub enum Reply {
    Tick,
    Stopped,
    Screen { frame: Frame },
    Board { sighting: Option<Sighting> },
    Confirmed { board: Option<Board> },
    Recalibrated { success: bool },
    Size { width: u32, height: u32 },
    Difference { changed: Changed, state: BoardChangeState },
    Analyzed { result: Option<BoardAnalysisResult> },
    Ready,
}

/// An answer, with the time at which it was given and the settings under which
/// it was found.
#[derive(Debug)]
pub struct Input {
    pub now: u128,
    pub settings: Settings,
    pub reply: Reply,
}

/// What is to be done, and what is asked for next.
#[derive(Debug)]
pub struct Output {
    pub effects: Vec<Effect>,
    pub request: Request,
}

/// Whether a reply answers a request.
pub open spec fn answers(request: Request, reply: Reply) -> bool {
    match request {
        Request::Wait => reply is Tick || reply is Stopped,
        Request::Screen => reply is Screen,
        Request::Board { .. } => reply is Board,
        Request::Confirm { .. } => reply is Confirmed,
        Request::Recalibrate => reply is Recalibrated,
        Request::WindowSize => reply is Size,
        Request::Diff { .. } => reply is Difference,
        Request::Analyze { .. } => reply is Analyzed,
        Request::Proceed => reply is Ready,
        Request::Finish => false,
    }
}

/// What the watcher is in the middle of.
#[derive(Clone, Copy, Debug)]
pub enum Phase {
    /// It waits for the next look.
    Waiting,
    /// It looks for buttons as a matter of routine, since `asked`.
    Routine { asked: u128 },
    /// It reads the board, perhaps again.
    Looking { again: bool },
    /// It finds out where the board is, having seen none.
    Calibrating,
    /// It finds out where the board is, having seen one that cannot be.
    Correcting,
    /// It reads the board again, having seen one that cannot be.
    LookingAgain,
    /// It is about to click away what hides the board, since `asked`.
    Measuring { asked: u128 },
    /// It clicked away what hides the board.
    Dismissed,
    /// It looks for buttons, having seen no board, since `asked`.
    Matching { asked: u128 },
    /// It looks for buttons, since a move did not take effect.
    Doubting { sighting: Sighting },
    /// It found such a button and clicked it; whether that starts a new game.
    Leaving { new_game: bool },
    /// It made a move again that did not take effect.
    Repeating { sighting: Sighting },
    /// It makes sure of a board.
    Confirming { sighting: Sighting },
    /// It finds out what happened on the board.
    Comparing { sighting: Sighting },
    /// It asks the engine, and will be in state `next` afterwards.
    Analyzing { camp: Camp, next: ChessboardState },
    /// It made the move that the engine suggests.
    Playing { next: ChessboardState },
    /// It has stopped.
    Finished,
}

/// Whether a reply is what the watcher waits for.
pub open spec fn accepts(phase: Phase, reply: Reply) -> bool {
    match phase {
        Phase::Waiting => reply is Tick || reply is Stopped,
        Phase::Routine { .. } => reply is Screen,
        Phase::Looking { .. } => reply is Board,
        Phase::Calibrating => reply is Recalibrated,
        Phase::Correcting => reply is Recalibrated,
        Phase::LookingAgain => reply is Board,
        Phase::Measuring { .. } => reply is Size,
        Phase::Dismissed => reply is Ready,
        Phase::Matching { .. } => reply is Screen,
        Phase::Doubting { .. } => reply is Screen,
        Phase::Leaving { .. } => reply is Ready,
        Phase::Repeating { .. } => reply is Ready,
        Phase::Confirming { .. } => reply is Confirmed,
        Phase::Comparing { .. } => reply is Difference,
        Phase::Analyzing { .. } => reply is Analyzed,
        Phase::Playing { .. } => reply is Ready,
        Phase::Finished => false,
    }
}

impl Phase {
    pub fn is_met_by(&self, reply: &Reply) -> (r: bool)
        ensures
            r == accepts(*self, *reply),
    {
        match (self, reply) {
            (Phase::Waiting, Reply::Tick) => true,
            (Phase::Waiting, Reply::Stopped) => true,
            (Phase::Routine { .. }, Reply::Screen { .. }) => true,
            (Phase::Looking { .. }, Reply::Board { .. }) => true,
            (Phase::Calibrating, Reply::Recalibrated { .. }) => true,
            (Phase::Correcting, Reply::Recalibrated { .. }) => true,
            (Phase::LookingAgain, Reply::Board { .. }) => true,
            (Phase::Measuring { .. }, Reply::Size { .. }) => true,
            (Phase::Dismissed, Reply::Ready) => true,
            (Phase::Matching { .. }, Reply::Screen { .. }) => true,
            (Phase::Doubting { .. }, Reply::Screen { .. }) => true,
            (Phase::Leaving { .. }, Reply::Ready) => true,
            (Phase::Repeating { .. }, Reply::Ready) => true,
            (Phase::Confirming { .. }, Reply::Confirmed { .. }) => true,
            (Phase::Comparing { .. }, Reply::Difference { .. }) => true,
            (Phase::Analyzing { .. }, Reply::Analyzed { .. }) => true,
            (Phase::Playing { .. }, Reply::Ready) => true,
            _ => false,
        }
    }
}

} // verus!
