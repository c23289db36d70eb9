//! What the mouse does, one gesture after the other.
use crate::board::Camp;
use crate::clicks::{
    lemma_opposite_move, lemma_tail_is_passed_over, move_pixels, names_two_cells, on_screen,
    opposite_move, SubBound, POINT, RECT,
};
use vstd::prelude::*;

verus! {

/// One thing that is done with the mouse or the window.
#[derive(Clone, Copy, Debug)]
pub enum Gesture {
    /// Bring the window to the front.
    Activate,
    /// Wait for this many milliseconds.
    Pause { millis: u64 },
    /// Put the cursor on this pixel of the screen.
    Point { at: POINT },
    /// Press the left button.
    Press,
    /// Release the left button.
    Release,
}

/// How a pixel is clicked. The cursor is put there again before the button is
/// touched, should the user have moved it.
pub open spec fn press_at(at: POINT, millis: u64) -> Seq<Gesture> {
    seq![
        Gesture::Point { at },
        Gesture::Pause { millis },
        Gesture::Point { at },
        Gesture::Press,
        Gesture::Pause { millis: 100 },
        Gesture::Point { at },
        Gesture::Release,
    ]
}

/// How the window is made ready for clicks.
pub open spec fn approach() -> Seq<Gesture> {
    seq![Gesture::Activate, Gesture::Pause { millis: 150 }]
}

/// How the cursor is given back to the user.
pub open spec fn retreat(home: POINT) -> Seq<Gesture> {
    seq![Gesture::Pause { millis: 50 }, Gesture::Point { at: home }]
}

/// A click on one pixel.
pub open spec fn click_script(at: POINT, home: POINT) -> Seq<Gesture> {
    approach() + press_at(at, 100) + retreat(home)
}

/// A move of a piece: a click on its cell, then on the cell it goes to.
pub open spec fn move_script(from: POINT, to: POINT, home: POINT) -> Seq<Gesture> {
    approach() + press_at(from, 150) + seq![Gesture::Pause { millis: 300 }] + press_at(to, 150)
        + retreat(home)
}

fn push_press(gestures: &mut Vec<Gesture>, at: POINT, millis: u64)
    ensures
        final(gestures)@ == old(gestures)@ + press_at(at, millis),
{
    gestures.push(Gesture::Point { at });
    gestures.push(Gesture::Pause { millis });
    gestures.push(Gesture::Point { at });
    gestures.push(Gesture::Press);
    gestures.push(Gesture::Pause { millis: 100 });
    gestures.push(Gesture::Point { at });
    gestures.push(Gesture::Release);
    assert(gestures@ =~= old(gestures)@ + press_at(at, millis));
}

fn begin_gestures() -> (gestures: Vec<Gesture>)
    ensures
        gestures@ == approach(),
{
    let mut gestures: Vec<Gesture> = Vec::new();
    gestures.push(Gesture::Activate);
    gestures.push(Gesture::Pause { millis: 150 });
    gestures
}

fn push_retreat(gestures: &mut Vec<Gesture>, home: POINT)
    ensures
        final(gestures)@ == old(gestures)@ + retreat(home),
{
    gestures.push(Gesture::Pause { millis: 50 });
    gestures.push(Gesture::Point { at: home });
    assert(gestures@ =~= old(gestures)@ + retreat(home));
}

/// The gestures of a click on `at`, from where the cursor is at `home`.
pub fn click_gestures(at: POINT, home: POINT) -> (gestures: Vec<Gesture>)
    ensures
        gestures@ == click_script(at, home),
{
    let mut gestures = begin_gestures();
    push_press(&mut gestures, at, 100);
    push_retreat(&mut gestures, home);
    gestures
}

/// The gestures of a move, from where the cursor is at `home`.
pub fn move_gestures(from: POINT, to: POINT, home: POINT) -> (gestures: Vec<Gesture>)
    ensures
        gestures@ == move_script(from, to, home),
{
    let mut gestures = begin_gestures();
    push_press(&mut gestures, from, 150);
    gestures.push(Gesture::Pause { millis: 300 });
    push_press(&mut gestures, to, 150);
    push_retreat(&mut gestures, home);
    assert(gestures@ =~= move_script(from, to, home));
    gestures
}

/// Where the cursor is, where the button was pressed if it is held, and which
/// pixels were clicked: pressed and released on.
pub struct Mouse {
    pub cursor: POINT,
    pub held: Option<POINT>,
    pub clicks: Seq<POINT>,
}

/// The mouse after a gesture.
pub open spec fn after_gesture(mouse: Mouse, gesture: Gesture) -> Mouse {
    match gesture {
        Gesture::Point { at } => Mouse { cursor: at, ..mouse },
        Gesture::Press => Mouse { held: Some(mouse.cursor), ..mouse },
        Gesture::Release => Mouse {
            held: None,
            clicks: if mouse.held == Some(mouse.cursor) {
                mouse.clicks.push(mouse.cursor)
            } else {
                mouse.clicks
            },
            ..mouse
        },
        _ => mouse,
    }
}

/// The mouse after some gestures.
pub open spec fn after_gestures(mouse: Mouse, gestures: Seq<Gesture>) -> Mouse
    decreases gestures.len(),
{
    if gestures.len() == 0 {
        mouse
    } else {
        after_gesture(after_gestures(mouse, gestures.drop_last()), gestures.last())
    }
}

/// Gestures one after the other.
proof fn lemma_after_both(mouse: Mouse, first: Seq<Gesture>, second: Seq<Gesture>)
    ensures
        after_gestures(mouse, first + second) == after_gestures(
            after_gestures(mouse, first),
            second,
        ),
    decreases second.len(),
{
    if second.len() == 0 {
        assert(first + second =~= first);
    } else {
        assert((first + second).drop_last() =~= first + second.drop_last());
        lemma_after_both(mouse, first, second.drop_last());
    }
}

proof fn lemma_press_at(mouse: Mouse, at: POINT, millis: u64)
    requires
        mouse.held is None,
    ensures
        after_gestures(mouse, press_at(at, millis)) == (Mouse {
            cursor: at,
            held: None,
            clicks: mouse.clicks.push(at),
        }),
{
    let s = press_at(at, millis);
    assert(s.drop_last() =~= s.take(6));
    assert(s.take(6).drop_last() =~= s.take(5));
    assert(s.take(5).drop_last() =~= s.take(4));
    assert(s.take(4).drop_last() =~= s.take(3));
    assert(s.take(3).drop_last() =~= s.take(2));
    assert(s.take(2).drop_last() =~= s.take(1));
    assert(s.take(1).drop_last() =~= s.take(0));
    reveal_with_fuel(after_gestures, 8);
}

proof fn lemma_approach(mouse: Mouse)
    ensures
        after_gestures(mouse, approach()) == mouse,
{
    assert(approach().drop_last() =~= seq![Gesture::Activate]);
    assert(seq![Gesture::Activate].drop_last() =~= Seq::<Gesture>::empty());
    reveal_with_fuel(after_gestures, 3);
}

proof fn lemma_retreat(mouse: Mouse, home: POINT)
    ensures
        after_gestures(mouse, retreat(home)) == (Mouse { cursor: home, ..mouse }),
{
    let pause = seq![Gesture::Pause { millis: 50 }];
    assert(retreat(home).drop_last() =~= pause);
    assert(pause.drop_last() =~= Seq::<Gesture>::empty());
    reveal_with_fuel(after_gestures, 3);
}

/// A click clicks the pixel and nothing else, and gives the cursor back.
pub proof fn lemma_click(mouse: Mouse, at: POINT)
    requires
        mouse.held is None,
    ensures
        after_gestures(mouse, click_script(at, mouse.cursor)) == (Mouse {
            clicks: mouse.clicks.push(at),
            ..mouse
        }),
{
    let home = mouse.cursor;
    lemma_approach(mouse);
    lemma_after_both(mouse, approach(), press_at(at, 100));
    lemma_press_at(mouse, at, 100);
    lemma_after_both(mouse, approach() + press_at(at, 100), retreat(home));
    lemma_retreat(after_gestures(mouse, approach() + press_at(at, 100)), home);
}

/// A move clicks the two cells, one after the other, and nothing else, and
/// gives the cursor back.
pub proof fn lemma_move(mouse: Mouse, from: POINT, to: POINT)
    requires
        mouse.held is None,
    ensures
        after_gestures(mouse, move_script(from, to, mouse.cursor)) == (Mouse {
            clicks: mouse.clicks.push(from).push(to),
            ..mouse
        }),
{
    let home = mouse.cursor;
    let pause = seq![Gesture::Pause { millis: 300 }];
    let a = approach();
    let b = a + press_at(from, 150);
    let c = b + pause;
    let d = c + press_at(to, 150);
    lemma_approach(mouse);
    lemma_after_both(mouse, a, press_at(from, 150));
    lemma_press_at(mouse, from, 150);
    lemma_after_both(mouse, b, pause);
    assert(pause.drop_last() =~= Seq::<Gesture>::empty());
    assert(after_gestures(after_gestures(mouse, b), pause) == after_gestures(mouse, b)) by {
        reveal_with_fuel(after_gestures, 2);
    }
    lemma_after_both(mouse, c, press_at(to, 150));
    lemma_press_at(after_gestures(mouse, c), to, 150);
    lemma_after_both(mouse, d, retreat(home));
    lemma_retreat(after_gestures(mouse, d), home);
}

/// What the mouse does for a move on a window that lies at `rect`.
pub open spec fn play_script(
    pv: Seq<char>,
    camp: Camp,
    window: SubBound,
    rect: RECT,
    home: POINT,
) -> Seq<Gesture> {
    match move_pixels(pv, camp, window) {
        Some((from, to)) => move_script(on_screen(rect, from), on_screen(rect, to), home),
        None => Seq::empty(),
    }
}

/// For a move, the mouse does for black what it does for red for the move that
/// is seen from the other side, and the other way round.
pub proof fn lemma_opposite_play(pv: Seq<char>, window: SubBound, rect: RECT, home: POINT)
    requires
        names_two_cells(pv),
    ensures
        play_script(pv, Camp::Black, window, rect, home) == play_script(
            opposite_move(pv),
            Camp::Red,
            window,
            rect,
            home,
        ),
        play_script(pv, Camp::Red, window, rect, home) == play_script(
            opposite_move(pv),
            Camp::Black,
            window,
            rect,
            home,
        ),
{
    lemma_opposite_move(pv, window);
}

/// What follows the first four characters of a move does not change what the
/// mouse does.
pub proof fn lemma_tail_is_not_played(
    pv: Seq<char>,
    tail: Seq<char>,
    camp: Camp,
    window: SubBound,
    rect: RECT,
    home: POINT,
)
    requires
        pv.len() >= 4,
    ensures
        play_script(pv + tail, camp, window, rect, home) == play_script(
            pv,
            camp,
            window,
            rect,
            home,
        ),
{
    lemma_tail_is_passed_over(pv, tail, camp, window);
}

} // verus!
