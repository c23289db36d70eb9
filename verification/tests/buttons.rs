use boardwatch::buttons::{
    check_play_again_btn, check_rank_up_back_btn, find_button, scan_green_button_in_region, Button,
};
use boardwatch::frame::Frame;

const GREEN: [u8; 3] = [60, 180, 60];
const GOLD: [u8; 3] = [230, 200, 120];
const BLUE: [u8; 3] = [10, 20, 120];
const GREY: [u8; 3] = [90, 90, 90];

/// A screen painted pixel by pixel.
fn paint(width: u32, height: u32, colour: impl Fn(u32, u32) -> [u8; 3]) -> Frame {
    let mut samples: Vec<u8> = Vec::new();
    for y in 0..height {
        for x in 0..width {
            samples.extend_from_slice(&colour(x, y));
            samples.push(255);
        }
    }
    Frame::new(width, height, samples).unwrap()
}

fn within(x: u32, y: u32, left: u32, top: u32, right: u32, bottom: u32) -> bool {
    left <= x && x < right && top <= y && y < bottom
}

#[test]
fn a_frame_needs_enough_samples() {
    assert!(Frame::new(2, 3, vec![0; 23]).is_none());
    assert!(Frame::new(2, 3, vec![0; 24]).is_some());
    assert!(Frame::new(2, 3, vec![0; 25]).is_some());
    assert!(Frame::new(u32::MAX, u32::MAX, vec![]).is_none());
    assert!(Frame::new(0, u32::MAX, vec![]).is_some());
}

#[test]
fn a_pixel_is_read_from_its_own_place() {
    let frame = paint(5, 4, |x, y| [10 * x as u8, 10 * y as u8, (x + y) as u8]);
    assert_eq!((frame.width(), frame.height()), (5, 4));
    for y in 0..4 {
        for x in 0..5 {
            assert_eq!(frame.rgb(x, y), (10 * x as u8, 10 * y as u8, (x + y) as u8));
        }
    }
}

#[test]
fn an_empty_screen_has_no_buttons() {
    for (w, h) in [(0, 0), (0, 10), (10, 0)] {
        let frame = Frame::new(w, h, vec![]).unwrap();
        assert_eq!(check_play_again_btn(&frame), None);
        assert_eq!(check_rank_up_back_btn(&frame), None);
        assert_eq!(find_button(&frame), None);
    }
}

#[test]
fn the_button_at_the_bottom_is_found() {
    let frame = paint(200, 500, |x, y| if within(x, y, 80, 450, 120, 460) { GREEN } else { GREY });
    // The middle tenth is 90..110, the bottom rows are 445..465.
    assert_eq!(check_play_again_btn(&frame), Some((99, 454)));
    assert_eq!(find_button(&frame), Some(Button::PlayAgain { x: 99, y: 454 }));
}

#[test]
fn the_button_of_the_dialogue_comes_first() {
    let frame = paint(200, 500, |x, y| {
        if within(x, y, 80, 450, 120, 460) || within(x, y, 90, 370, 110, 380) {
            GREEN
        } else {
            GREY
        }
    });
    assert_eq!(check_play_again_btn(&frame), Some((99, 374)));
}

#[test]
fn a_green_patch_has_to_be_large_enough() {
    // The region is 20 wide and 100 high: a twentieth of it is 100 pixels.
    let patch = |n: u32| {
        let frame = paint(200, 200, |x, y| {
            if within(x, y, 90, 50, 110, 150) && (y - 50) * 20 + (x - 90) < n {
                GREEN
            } else {
                GREY
            }
        });
        scan_green_button_in_region(&frame, 50, 150)
    };
    assert_eq!(patch(100), None);
    assert_eq!(patch(101), Some((99, 52)));
}

#[test]
fn a_large_region_asks_for_a_twentieth() {
    // 20 wide and 200 high: a twentieth is 200 pixels.
    let patch = |n: u32| {
        let frame = paint(200, 200, |x, y| {
            if within(x, y, 90, 0, 110, 200) && y * 20 + (x - 90) < n {
                GREEN
            } else {
                GREY
            }
        });
        scan_green_button_in_region(&frame, 0, 200)
    };
    assert_eq!(patch(200), None);
    assert_eq!(patch(201), Some((99, 4)));
}

#[test]
fn green_is_told_from_other_colours() {
    let shade = |colour: [u8; 3]| {
        let frame = paint(200, 100, |_, _| colour);
        scan_green_button_in_region(&frame, 0, 100).is_some()
    };
    assert!(shade([39, 66, 20]));
    assert!(!shade([38, 65, 19]));
    assert!(!shade([40, 66, 20]));
    assert!(!shade([39, 66, 21]));
    assert!(!shade([240, 255, 0]));
    assert!(!shade([0, 255, 220]));
}

#[test]
fn the_arrow_is_found_on_blue_ground() {
    // The corner of a screen of 400 by 400 is 8..60 by 360..392.
    let frame = paint(400, 400, |x, y| {
        if within(x, y, 20, 370, 41, 380) {
            GOLD
        } else {
            BLUE
        }
    });
    assert_eq!(check_rank_up_back_btn(&frame), Some((30, 374)));
    assert_eq!(find_button(&frame), Some(Button::Back { x: 30, y: 374 }));
}

#[test]
fn the_arrow_needs_two_hundred_pixels() {
    let arrow = |n: u32| {
        let frame = paint(400, 400, |x, y| {
            if within(x, y, 20, 370, 40, 390) && (y - 370) * 20 + (x - 20) < n {
                GOLD
            } else {
                BLUE
            }
        });
        check_rank_up_back_btn(&frame)
    };
    assert_eq!(arrow(199), None);
    assert_eq!(arrow(200), Some((29, 374)));
    assert_eq!(arrow(201), Some((29, 374)));
}

#[test]
fn a_small_arrow_is_found_on_a_large_screen() {
    let frame = paint(1000, 1000, |x, y| {
        if within(x, y, 50, 920, 70, 930) {
            [200, 190, 150]
        } else {
            [0, 0, 100]
        }
    });
    assert_eq!(check_rank_up_back_btn(&frame), Some((59, 924)));
}

#[test]
fn the_ground_has_to_be_blue() {
    // The corner holds 52 * 32 = 1664 pixels, 264 of them gold: 1400 are ground.
    let ground = |blue: u32| {
        let mut left = blue;
        let mut samples: Vec<u8> = Vec::new();
        for y in 0..400 {
            for x in 0..400 {
                let colour = if within(x, y, 20, 370, 42, 382) {
                    GOLD
                } else if within(x, y, 8, 360, 60, 392) && left > 0 {
                    left -= 1;
                    BLUE
                } else {
                    GREY
                };
                samples.extend_from_slice(&colour);
                samples.push(255);
            }
        }
        check_rank_up_back_btn(&Frame::new(400, 400, samples).unwrap())
    };
    assert_eq!(ground(1120), None);
    assert_eq!(ground(1121), Some((30, 375)));
}

#[test]
fn without_ground_there_is_no_arrow() {
    let frame = paint(400, 400, |_, _| GOLD);
    assert_eq!(check_rank_up_back_btn(&frame), None);
}

#[test]
fn the_arrow_comes_before_the_offer_to_play_again() {
    let frame = paint(400, 400, |x, y| {
        if within(x, y, 20, 370, 41, 380) {
            GOLD
        } else if within(x, y, 180, 356, 220, 372) {
            GREEN
        } else {
            BLUE
        }
    });
    assert!(check_play_again_btn(&frame).is_some());
    assert_eq!(find_button(&frame), Some(Button::Back { x: 30, y: 374 }));
}

#[test]
fn regions_are_measured_in_single_precision() {
    // 0.55 * 1100 is 605 in single precision, and the region ends before it.
    for (w, h) in [(1100u32, 60u32), (333, 120), (1080, 100)] {
        let end = (w as f32 * 0.55) as u32;
        let start = (w as f32 * 0.45) as u32;
        let frame = paint(w, h, |x, _| if start <= x && x < end { GREEN } else { GREY });
        let n = ((end - start) * h) as u64;
        let sum: u64 = (start..end).map(|x| x as u64 * h as u64).sum();
        let rows: u64 = (0..h).map(|y| y as u64 * (end - start) as u64).sum();
        assert_eq!(
            scan_green_button_in_region(&frame, 0, h),
            Some(((sum / n) as u32, (rows / n) as u32))
        );
    }
}
