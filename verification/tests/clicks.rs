use boardwatch::board::{Camp, Changed};
use boardwatch::gestures::{click_gestures, move_gestures, Gesture};
use boardwatch::clicks::{
    click_screen_pos, dismissal_point, execute_move, is_legible, move_text, screen_pos, SubBound, POINT,
    RECT,
};

const WINDOW: SubBound = SubBound { x: 100, y: 200, w: 900, h: 1000 };

fn clicks(pv: &str, camp: Camp, window: &SubBound) -> Option<((i32, i32), (i32, i32))> {
    assert!(is_legible(pv, &camp));
    execute_move(pv, &camp, window).map(|c| ((c.from.x, c.from.y), (c.to.x, c.to.y)))
}

#[test]
fn red_clicks_from_the_upper_left() {
    assert_eq!(clicks("a9b8", Camp::Red, &WINDOW), Some(((150, 250), (250, 350))));
    assert_eq!(clicks("i0h0", Camp::Red, &WINDOW), Some(((950, 1150), (850, 1150))));
}

#[test]
fn an_unknown_side_clicks_like_red() {
    assert_eq!(clicks("h2e2", Camp::Unknown, &WINDOW), clicks("h2e2", Camp::Red, &WINDOW));
}

#[test]
fn black_clicks_on_the_opposite_cells() {
    assert_eq!(clicks("a9b8", Camp::Black, &WINDOW), Some(((950, 1150), (850, 1050))));
    for (file, rank, other_file, other_rank) in [('a', '9', 'i', '0'), ('c', '7', 'g', '2'), ('e', '4', 'e', '5')] {
        let pv = format!("{file}{rank}{file}{rank}");
        let opposite = format!("{other_file}{other_rank}{other_file}{other_rank}");
        assert_eq!(clicks(&pv, Camp::Black, &WINDOW), clicks(&opposite, Camp::Red, &WINDOW));
    }
}

#[test]
fn middles_are_those_of_the_hardware() {
    for window in [
        SubBound { x: 13, y: 57, w: 611, h: 733 },
        SubBound { x: 0, y: 0, w: 1, h: 1 },
        SubBound { x: 16777217, y: 3, w: 16777213, h: 2147483647 },
        SubBound { x: u32::MAX, y: u32::MAX, w: u32::MAX, h: u32::MAX },
    ] {
        for col in 0..9u8 {
            for row in 0..10u8 {
                let pv = format!("{0}{1}{0}{1}", (b'a' + col) as char, (b'9' - row) as char);
                let x = window.x as f32 + (col as f32 + 0.5) * (window.w as f32 / 9.0);
                let y = window.y as f32 + (row as f32 + 0.5) * (window.h as f32 / 10.0);
                let point = (x as i32, y as i32);
                assert_eq!(clicks(&pv, Camp::Red, &window), Some((point, point)));
            }
        }
    }
}

#[test]
fn clicks_stay_on_the_board() {
    for file in 'a'..='i' {
        for rank in '0'..='9' {
            let pv = format!("{file}{rank}{file}{rank}");
            let window = SubBound { x: 7, y: 11, w: 5, h: 3 };
            let ((x, y), _) = clicks(&pv, Camp::Black, &window).unwrap();
            assert!(7 <= x && x <= 12);
            assert!(11 <= y && y <= 14);
        }
    }
}

#[test]
fn a_short_move_is_not_made() {
    assert_eq!(clicks("", Camp::Red, &WINDOW), None);
    assert_eq!(clicks("a9b", Camp::Red, &WINDOW), None);
}

#[test]
fn no_move_is_made_on_a_board_of_no_size() {
    assert_eq!(clicks("a9b8", Camp::Red, &SubBound { x: 0, y: 0, w: 0, h: 10 }), None);
    assert_eq!(clicks("a9b8", Camp::Red, &SubBound { x: 0, y: 0, w: 10, h: 0 }), None);
}

#[test]
fn what_follows_the_two_cells_is_passed_over() {
    assert_eq!(clicks("a9b8q", Camp::Red, &WINDOW), clicks("a9b8", Camp::Red, &WINDOW));
}

#[test]
fn moves_that_name_no_cells_are_told_apart() {
    assert!(!is_legible("A9b8", &Camp::Red));
    assert!(!is_legible("a:b8", &Camp::Red));
    assert!(!is_legible("a9j8", &Camp::Black));
    assert!(!is_legible("a9b/", &Camp::Black));
    assert!(is_legible("a9j8", &Camp::Red));
    assert!(!is_legible("炮二", &Camp::Red));
    assert!(is_legible("abc", &Camp::Red));
}

#[test]
fn a_move_is_written_from_and_to() {
    let changed = Changed { camp: Camp::Red, from: "h2".to_string(), to: "e2".to_string() };
    assert_eq!(move_text(&changed), "h2e2");
    assert_eq!(move_text(&changed.clone()), "h2e2");
    assert_eq!(move_text(&Changed::default()), "");
}

#[test]
fn clicks_are_counted_from_the_corner_of_the_window() {
    let rect = RECT { left: -30, top: 40, right: 500, bottom: 600 };
    let point = click_screen_pos(&rect, 10, 20);
    assert_eq!((point.x, point.y), (-20, 60));
    let point = screen_pos(&rect, -5, 7);
    assert_eq!((point.x, point.y), (-35, 47));
    let point = click_screen_pos(&RECT::default(), u32::MAX, 0x8000_0000);
    assert_eq!((point.x, point.y), (-1, i32::MIN));
    assert_eq!((POINT::default().x, POINT::default().y), (0, 0));
    assert_eq!((RECT::default().right, RECT::default().bottom), (0, 0));
}

#[test]
fn a_dialogue_is_clicked_away_below_the_middle() {
    assert_eq!(dismissal_point(1080, 1920), Some((540, 1280)));
    assert_eq!(dismissal_point(2, 2), Some((1, 1)));
    assert_eq!(dismissal_point(1, 100), None);
    assert_eq!(dismissal_point(100, 1), None);
    assert_eq!(dismissal_point(0, 0), None);
    assert_eq!(dismissal_point(u32::MAX, u32::MAX), Some((2147483647, 2863311530)));
}

/// What the gestures click, where the cursor ends up, and how long they take.
fn replay(gestures: &[Gesture], home: (i32, i32)) -> (Vec<(i32, i32)>, (i32, i32), u64) {
    let mut cursor = home;
    let mut held: Option<(i32, i32)> = None;
    let mut clicks: Vec<(i32, i32)> = Vec::new();
    let mut time: u64 = 0;
    for gesture in gestures {
        match *gesture {
            Gesture::Activate => assert!(held.is_none()),
            Gesture::Pause { millis } => time += millis,
            Gesture::Point { at } => cursor = (at.x, at.y),
            Gesture::Press => held = Some(cursor),
            Gesture::Release => {
                assert_eq!(held, Some(cursor));
                clicks.push(cursor);
                held = None;
            }
        }
    }
    assert!(held.is_none());
    (clicks, cursor, time)
}

#[test]
fn a_click_gives_the_cursor_back() {
    let gestures = click_gestures(POINT { x: 5, y: 6 }, POINT { x: 70, y: 80 });
    assert!(matches!(gestures[0], Gesture::Activate));
    assert_eq!(replay(&gestures, (70, 80)), (vec![(5, 6)], (70, 80), 400));
}

#[test]
fn a_move_clicks_both_cells_and_gives_the_cursor_back() {
    let gestures =
        move_gestures(POINT { x: 5, y: 6 }, POINT { x: -7, y: 8 }, POINT { x: 70, y: 80 });
    assert!(matches!(gestures[0], Gesture::Activate));
    assert_eq!(replay(&gestures, (70, 80)), (vec![(5, 6), (-7, 8)], (70, 80), 1000));
}

/// All that the mouse does for a move.
fn play(pv: &str, camp: Camp) -> (Vec<(i32, i32)>, (i32, i32), u64) {
    let rect = RECT { left: -30, top: 40, right: 500, bottom: 600 };
    assert!(is_legible(pv, &camp));
    let c = execute_move(pv, &camp, &WINDOW).unwrap();
    let from = screen_pos(&rect, c.from.x, c.from.y);
    let to = screen_pos(&rect, c.to.x, c.to.y);
    replay(&move_gestures(from, to, POINT { x: 1, y: 2 }), (1, 2))
}

#[test]
fn black_plays_what_red_plays_from_the_other_side() {
    for (pv, opposite) in [("a9b7", "i0h2"), ("e4e5", "e5e4"), ("h2e2", "b7e7"), ("i0i9", "a9a0")] {
        assert_eq!(play(pv, Camp::Black), play(opposite, Camp::Red));
        assert_eq!(play(pv, Camp::Red), play(opposite, Camp::Black));
    }
    assert_eq!(play("h2e2", Camp::Black).0, vec![(220, 490), (520, 490)]);
}

#[test]
fn a_tail_is_not_played() {
    for camp in [Camp::Red, Camp::Black, Camp::Unknown] {
        for tail in ["", "q", " ponder b7e7", "炮二平五"] {
            assert_eq!(play(&format!("h2e2{tail}"), camp), play("h2e2", camp));
        }
    }
}
