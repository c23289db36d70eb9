use boardwatch::board::Camp;
use boardwatch::calibration::{recalibrate_board_bound, start_bound};
use boardwatch::common::{detections_bound, detections_to_board, Detection, ModelSize};
use boardwatch::single::Single;

const MODEL: ModelSize = ModelSize { width: 640, height: 640 };

fn detection(label: char, x0: f32, y0: f32, x1: f32, y1: f32) -> Detection {
    Detection {
        label,
        x0: Single::from_bits(x0.to_bits()),
        y0: Single::from_bits(y0.to_bits()),
        x1: Single::from_bits(x1.to_bits()),
        y1: Single::from_bits(y1.to_bits()),
    }
}

/// A piece in the middle of a cell.
fn piece(label: char, row: usize, col: usize) -> Detection {
    let x = 640.0 / 9.0 * (col as f32 + 0.5);
    let y = 64.0 * (row as f32 + 0.5);
    detection(label, x - 20.0, y - 20.0, x + 20.0, y + 20.0)
}

const NO_BOUND: &str = "未识别到棋盘边界及足够数量的棋子";

#[test]
fn nothing_seen_is_a_blank_board() {
    let (camp, board) = detections_to_board(&[], false, MODEL).unwrap();
    assert_eq!(camp, Camp::Unknown);
    assert_eq!(board, [[' '; 9]; 10]);
}

#[test]
fn outline_is_asked_for() {
    assert_eq!(detections_to_board(&[piece('K', 9, 4)], true, MODEL), Err("not board".to_string()));
    let seen = [piece('K', 9, 4), detection('0', 0.0, 0.0, 640.0, 640.0)];
    assert!(detections_to_board(&seen, true, MODEL).is_ok());
}

#[test]
fn pieces_stand_where_they_were_seen() {
    for row in 0..10 {
        for col in 0..9 {
            let (_, board) = detections_to_board(&[piece('r', row, col)], false, MODEL).unwrap();
            let mut expected = [[' '; 9]; 10];
            expected[row][col] = 'r';
            assert_eq!(board, expected);
        }
    }
}

#[test]
fn the_last_piece_on_a_cell_counts() {
    let seen = [piece('r', 3, 3), piece('n', 3, 3), piece('c', 3, 4)];
    let (_, board) = detections_to_board(&seen, false, MODEL).unwrap();
    assert_eq!(board[3][3], 'n');
    assert_eq!(board[3][4], 'c');
}

#[test]
fn an_outline_is_no_piece() {
    let seen = [piece('r', 5, 4), detection('0', 0.0, 0.0, 640.0, 640.0)];
    let (_, board) = detections_to_board(&seen, true, MODEL).unwrap();
    let mut expected = [[' '; 9]; 10];
    expected[5][4] = 'r';
    assert_eq!(board, expected);
}

#[test]
fn pieces_beside_the_board_are_left_out() {
    let seen = [
        detection('r', 640.0, 10.0, 660.0, 20.0),
        detection('n', 10.0, 640.0, 20.0, 660.0),
        detection('b', 1.0e30, 0.0, 1.0e30, 0.0),
    ];
    let (_, board) = detections_to_board(&seen, false, MODEL).unwrap();
    assert_eq!(board, [[' '; 9]; 10]);
}

#[test]
fn a_box_without_numbers_falls_on_the_first_cell() {
    let (_, board) =
        detections_to_board(&[detection('p', f32::NAN, -50.0, 10.0, 10.0)], false, MODEL).unwrap();
    assert_eq!(board[0][0], 'p');
}

#[test]
fn kings_tell_the_side() {
    let side = |label: char, row: usize, col: usize| {
        detections_to_board(&[piece(label, row, col)], false, MODEL).unwrap().0
    };
    for col in 3..6 {
        for row in 7..10 {
            assert_eq!(side('k', row, col), Camp::Black);
            assert_eq!(side('K', row, col), Camp::Red);
        }
        for row in 0..3 {
            assert_eq!(side('k', row, col), Camp::Red);
            assert_eq!(side('K', row, col), Camp::Black);
        }
        for row in 3..7 {
            assert_eq!(side('k', row, col), Camp::Unknown);
        }
    }
    assert_eq!(side('k', 9, 2), Camp::Unknown);
    assert_eq!(side('K', 0, 6), Camp::Unknown);
    assert_eq!(side('a', 9, 4), Camp::Unknown);
}

#[test]
fn the_first_king_decides() {
    let seen = [piece('a', 9, 3), piece('k', 9, 4), piece('K', 8, 4)];
    assert_eq!(detections_to_board(&seen, false, MODEL).unwrap().0, Camp::Black);
}

/// The bound in hardware floats.
fn bound_of_outline(w: u32, h: u32, x0: f32, y0: f32, x1: f32, y1: f32) -> (u32, u32, u32, u32) {
    let (sx, sy) = (w as f32 / 640.0, h as f32 / 640.0);
    let (bx0, by0) = ((x0 * sx).max(0.0), (y0 * sy).max(0.0));
    let (bx1, by1) = ((x1 * sx).min(w as f32), (y1 * sy).min(h as f32));
    let (mx, my) = ((bx1 - bx0) / 8.0 / 2.0, (by1 - by0) / 9.0 / 2.0);
    let (x, y) = ((bx0 - mx).max(0.0) as u32, (by0 - my).max(0.0) as u32);
    let (ex, ey) = ((bx1 + mx).min(w as f32), (by1 + my).min(h as f32));
    (x, y, (ex - x as f32) as u32, (ey - y as f32) as u32)
}

#[test]
fn the_outline_gives_the_bound() {
    let outline = [detection('0', 80.0, 90.0, 560.0, 540.0)];
    assert_eq!(detections_bound(640, 640, &outline, MODEL), Ok((50, 65, 540, 500)));
    for (w, h) in [(640, 640), (1920, 1080), (1080, 1920), (333, 777), (1, 1), (0, 0), (100000, 7)] {
        for (x0, y0, x1, y1) in [
            (80.0, 90.0, 560.0, 540.0),
            (-5.0, -5.0, 700.0, 700.0),
            (12.34, 56.78, 321.09, 432.1),
            (600.0, 600.0, 10.0, 10.0),
            (f32::NAN, 1.0, 2.0, f32::NAN),
            (0.0, 0.0, f32::INFINITY, 1.0e30),
        ] {
            assert_eq!(
                detections_bound(w, h, &[detection('0', x0, y0, x1, y1)], MODEL),
                Ok(bound_of_outline(w, h, x0, y0, x1, y1)),
                "{w} {h} {x0} {y0} {x1} {y1}"
            );
        }
    }
}

#[test]
fn the_first_outline_counts() {
    let seen = [
        piece('r', 0, 0),
        detection('0', 80.0, 90.0, 560.0, 540.0),
        detection('0', 0.0, 0.0, 1.0, 1.0),
    ];
    assert_eq!(detections_bound(640, 640, &seen, MODEL), Ok((50, 65, 540, 500)));
}

/// The bound of pieces with these middles, in hardware floats.
fn bound_of_pieces(w: u32, h: u32, seen: &[(f32, f32)]) -> (u32, u32, u32, u32) {
    let (mut x0, mut x1, mut y0, mut y1) = (f32::MAX, f32::MIN, f32::MAX, f32::MIN);
    for &(x, y) in seen {
        let (cx, cy) = (((x - 4.0) + (x + 4.0)) / 2.0, ((y - 4.0) + (y + 4.0)) / 2.0);
        x0 = if cx < x0 { cx } else { x0 };
        x1 = if cx > x1 { cx } else { x1 };
        y0 = if cy < y0 { cy } else { y0 };
        y1 = if cy > y1 { cy } else { y1 };
    }
    let (sx, sy) = (w as f32 / 640.0, h as f32 / 640.0);
    let (gx, gy) = ((x1 - x0) / 8.0 * sx, (y1 - y0) / 9.0 * sy);
    let (x, y) = (((x0 * sx) - gx * 0.5).max(0.0) as u32, ((y0 * sy) - gy * 0.5).max(0.0) as u32);
    let (ex, ey) = (((x1 * sx) + gx * 0.5).min(w as f32), ((y1 * sy) + gy * 0.5).min(h as f32));
    (x, y, (ex - x as f32) as u32, (ey - y as f32) as u32)
}

fn pieces(seen: &[(f32, f32)]) -> Vec<Detection> {
    seen.iter().map(|&(x, y)| detection('p', x - 4.0, y - 4.0, x + 4.0, y + 4.0)).collect()
}

#[test]
fn pieces_give_the_bound() {
    let square = [(80.0, 50.0), (560.0, 50.0), (80.0, 590.0), (560.0, 590.0)];
    assert_eq!(detections_bound(640, 640, &pieces(&square), MODEL), Ok((50, 20, 540, 600)));
    let odd = [(13.7, 44.1), (601.2, 333.3), (99.9, 611.7), (444.4, 555.5), (300.0, 1.25)];
    for (w, h) in [(640, 640), (1920, 1080), (1080, 2340)] {
        assert_eq!(detections_bound(w, h, &pieces(&odd), MODEL), Ok(bound_of_pieces(w, h, &odd)));
    }
}

#[test]
fn the_bound_depends_on_the_middles_alone() {
    let middles = [(13.5, 44.0), (601.25, 333.5), (99.0, 611.5), (444.5, 555.25), (300.0, 1.25)];
    let expected = detections_bound(1920, 1080, &pieces(&middles), MODEL);
    assert!(expected.is_ok());
    // Another order, other pieces, other sizes.
    let other: Vec<Detection> = [3, 0, 4, 2, 1]
        .iter()
        .zip(['k', 'R', 'c', 'a', 'P'])
        .zip([1.0, 2.0, 8.0, 0.5, 16.0])
        .map(|((&i, label), half)| {
            let (x, y): (f32, f32) = middles[i];
            detection(label, x - half, y + half, x + half, y - half)
        })
        .collect();
    assert_eq!(detections_bound(1920, 1080, &other, MODEL), expected);
}

#[test]
fn too_few_pieces_give_no_bound() {
    let three = [(80.0, 50.0), (560.0, 50.0), (80.0, 590.0)];
    assert_eq!(detections_bound(640, 640, &pieces(&three), MODEL), Err(NO_BOUND.to_string()));
    assert_eq!(detections_bound(640, 640, &[], MODEL), Err(NO_BOUND.to_string()));
}

#[test]
fn pieces_too_close_give_no_bound() {
    let close = [(80.0, 50.0), (160.0, 50.0), (80.0, 590.0), (160.0, 590.0)];
    assert_eq!(bound_of_pieces(640, 640, &close).2, 90);
    assert_eq!(detections_bound(640, 640, &pieces(&close), MODEL), Err(NO_BOUND.to_string()));
}

#[test]
fn bounds_stay_on_the_screen() {
    for x0 in [0.0, 1.0, 333.3, 600.0] {
        for x1 in [10.0, 200.7, 639.9, 640.0, 2000.0] {
            let seen = [detection('0', x0, x0, x1, x1)];
            let (x, y, w, h) = detections_bound(1366, 768, &seen, MODEL).unwrap();
            assert!(w == 0 || x + w <= 1366);
            assert!(h == 0 || y + h <= 768);
        }
    }
}

#[test]
fn empty_bounds_stay_on_the_screen() {
    // An outline of no size at the far corner of the detector's image.
    let seen = [detection('0', 640.0, 640.0, 640.0, 640.0)];
    for (width, height) in [(1366, 768), (1, 1), (0, 0), (8388607, 5000011), (4194305, 7)] {
        let (x, y, w, h) = detections_bound(width, height, &seen, MODEL).unwrap();
        assert!(x + w <= width && y + h <= height);
    }
    // Beyond that length half a pixel more is rounded to a whole one.
    assert_eq!(detections_bound(10485767, 1, &seen, MODEL).unwrap().0, 10485768);
}

#[test]
fn watching_starts_with_the_board_or_with_everything() {
    let outline = [detection('0', 80.0, 90.0, 560.0, 540.0)];
    let bound = start_bound(640, 640, &outline, MODEL);
    assert_eq!((bound.x, bound.y, bound.w, bound.h), (50, 65, 540, 500));
    let bound = start_bound(800, 600, &[], MODEL);
    assert_eq!((bound.x, bound.y, bound.w, bound.h), (0, 0, 800, 600));
}

#[test]
fn recalibration_needs_a_board() {
    let outline = [detection('0', 80.0, 90.0, 560.0, 540.0)];
    let bound = recalibrate_board_bound(640, 640, Some(&outline), MODEL).unwrap();
    assert_eq!((bound.x, bound.y, bound.w, bound.h), (50, 65, 540, 500));
    assert!(recalibrate_board_bound(640, 640, Some(&[]), MODEL).is_none());
    assert!(recalibrate_board_bound(640, 640, None, MODEL).is_none());
}
