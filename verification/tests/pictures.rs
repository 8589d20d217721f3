use sci_quest_decoder::error::DecodeError;
use sci_quest_decoder::line::draw_sierra_line;
use sci_quest_decoder::picture::{
    draw, draw_pattern, run_action, InterpreterState, LoopingPatternBitStream, Picture,
};
use sci_quest_decoder::picture_splitter::{Action, ActionArguments};

const WIDTH: usize = 320;
const HEIGHT: usize = 190;
const WHITE: u8 = 15;

fn triple(x: usize, y: usize) -> Vec<u8> {
    vec![(((x >> 8) << 4) | (y >> 8)) as u8, (x & 0xff) as u8, (y & 0xff) as u8]
}

fn at(picture: &[u8], x: usize, y: usize) -> u8 {
    picture[y * WIDTH + x]
}

fn painted(picture: &[u8]) -> Vec<(usize, usize)> {
    let mut points: Vec<(usize, usize)> = Vec::new();
    for y in 0..HEIGHT {
        for x in 0..WIDTH {
            if picture[y * WIDTH + x] != WHITE {
                points.push((x, y));
            }
        }
    }
    points
}

fn parse(data: &[u8]) -> Vec<u8> {
    Picture::parse(data).unwrap().picture
}

fn blank() -> Vec<u8> {
    vec![WHITE; WIDTH * HEIGHT]
}

/// The rounding of the scan conversion, in single precision.
fn agi_round(value: f32, direction: f32) -> usize {
    if direction < 0. {
        if value - value.floor() <= 0.501 {
            value.floor() as usize
        } else {
            value.ceil() as usize
        }
    } else if value - value.floor() < 0.499 {
        value.floor() as usize
    } else {
        value.ceil() as usize
    }
}

/// The scan conversion, in single precision.
fn float_line(picture: &mut [u8], colour: u8, x1: usize, y1: usize, x2: usize, y2: usize) {
    if x1 >= WIDTH || y1 >= HEIGHT || x2 >= WIDTH || y2 >= HEIGHT {
        return;
    }
    let height = (y2 as isize) - (y1 as isize);
    let width = (x2 as isize) - (x1 as isize);
    let mut add_x: f32 = if height == 0 { 0. } else { (width as f32) / (height.abs() as f32) };
    let mut add_y: f32 = if width == 0 { 0. } else { (height as f32) / (width.abs() as f32) };
    let mut x = x1 as f32;
    let mut y = y1 as f32;
    let steps = if width.abs() > height.abs() {
        add_x = if width > 0 { 1. } else { -1. };
        width.abs()
    } else {
        add_y = if height == 0 {
            0.
        } else if height > 0 {
            1.
        } else {
            -1.
        };
        height.abs()
    };
    for _ in 0..steps {
        picture[agi_round(y, add_y) * WIDTH + agi_round(x, add_x)] = colour;
        x += add_x;
        y += add_y;
    }
    picture[y2 * WIDTH + x2] = colour;
}

#[test]
fn empty_picture_is_white() {
    assert_eq!(parse(&[0xff]), blank());
    assert_eq!(parse(&[]), blank());
    assert_eq!(parse(&[0xff]).len(), 60800);
}

#[test]
fn nothing_is_drawn_before_a_colour_is_set() {
    let mut data: Vec<u8> = vec![0xf6];
    data.extend(triple(0, 0));
    data.extend(triple(10, 0));
    data.push(0xf8);
    data.extend(triple(5, 5));
    data.push(0xfa);
    data.extend(triple(50, 50));
    data.push(0xff);
    assert_eq!(parse(&data), blank());
}

#[test]
fn nothing_is_drawn_after_disable_visual() {
    let mut data: Vec<u8> = vec![0xf0, 1, 0xf1, 0xf6];
    data.extend(triple(0, 0));
    data.extend(triple(10, 0));
    data.push(0xff);
    assert_eq!(parse(&data), blank());
}

#[test]
fn horizontal_line() {
    let mut data: Vec<u8> = vec![0xf0, 4, 0xf6];
    data.extend(triple(3, 2));
    data.extend(triple(9, 2));
    data.push(0xff);
    let picture = parse(&data);
    let expected: Vec<(usize, usize)> = (3..=9).map(|x| (x, 2)).collect();
    assert_eq!(painted(&picture), expected);
    assert!(expected.iter().all(|(x, y)| at(&picture, *x, *y) == 4));
}

#[test]
fn vertical_line_upwards() {
    let mut data: Vec<u8> = vec![0xf0, 0, 0xf6];
    data.extend(triple(319, 189));
    data.extend(triple(319, 185));
    data.push(0xff);
    let picture = parse(&data);
    let expected: Vec<(usize, usize)> = (185..=189).map(|y| (319, y)).collect();
    assert_eq!(painted(&picture), expected);
}

#[test]
fn single_point_line() {
    let mut data: Vec<u8> = vec![0xf0, 2, 0xf6];
    data.extend(triple(7, 8));
    data.extend(triple(7, 8));
    data.push(0xff);
    assert_eq!(painted(&parse(&data)), vec![(7, 8)]);
}

#[test]
fn diagonal_line() {
    let mut data: Vec<u8> = vec![0xf0, 2, 0xf6];
    data.extend(triple(0, 0));
    data.extend(triple(5, 5));
    data.push(0xff);
    let expected: Vec<(usize, usize)> = (0..=5).map(|i| (i, i)).collect();
    assert_eq!(painted(&parse(&data)), expected);
}

#[test]
fn shallow_line_rounds_with_its_bias() {
    // From (0, 0) to (4, 1): y moves by 0.25 a step and rounds up from 0.5 on.
    let mut picture = blank();
    draw_sierra_line(&mut picture, 1, 0, 0, 4, 1);
    assert_eq!(painted(&picture), vec![(0, 0), (1, 0), (2, 1), (3, 1), (4, 1)]);
    // From (0, 0) to (5, 1): y is 0.4 after two steps and 0.6 after three.
    let mut picture = blank();
    draw_sierra_line(&mut picture, 1, 0, 0, 5, 1);
    assert_eq!(painted(&picture), vec![(0, 0), (1, 0), (2, 0), (3, 1), (4, 1), (5, 1)]);
    // From (0, 0) to (4, 2): y is 0.5 after one step, which rounds up.
    let mut picture = blank();
    draw_sierra_line(&mut picture, 1, 0, 0, 4, 2);
    assert_eq!(painted(&picture), vec![(0, 0), (1, 1), (2, 1), (3, 2), (4, 2)]);
    // Back from (4, 2) to (0, 0): moving up, 0.5 rounds down.
    let mut picture = blank();
    draw_sierra_line(&mut picture, 1, 4, 2, 0, 0);
    assert_eq!(painted(&picture), vec![(0, 0), (1, 0), (2, 1), (3, 1), (4, 2)]);
}

#[test]
fn long_segment_keeps_the_error_of_single_precision() {
    // At x = 294 the exact coordinate is 169.4984..., below the bound of
    // 0.499; accumulated in single precision it is 169.499023, above it.
    let mut data: Vec<u8> = vec![0xf0, 0, 0xf6];
    data.extend(triple(0, 7));
    data.extend(triple(313, 180));
    data.push(0xff);
    let picture = parse(&data);
    assert_eq!(at(&picture, 294, 170), 0);
    assert_eq!(at(&picture, 294, 169), WHITE);
    assert_eq!(at(&picture, 313, 180), 0);
    assert_eq!(at(&picture, 0, 7), 0);
    assert_eq!(painted(&picture).len(), 314);
}

#[test]
fn segments_match_single_precision_arithmetic() {
    let starts: Vec<(usize, usize)> =
        vec![(0, 0), (319, 189), (0, 189), (319, 0), (160, 95), (7, 133), (301, 21)];
    let mut compared = 0;
    for (x1, y1) in &starts {
        let mut x2 = 0;
        while x2 < WIDTH {
            let mut y2 = 0;
            while y2 < HEIGHT {
                let mut ours = blank();
                let mut theirs = blank();
                draw_sierra_line(&mut ours, 3, *x1 as i128, *y1 as i128, x2 as i128, y2 as i128);
                float_line(&mut theirs, 3, *x1, *y1, x2, y2);
                assert!(ours == theirs, "segment ({}, {}) to ({}, {})", x1, y1, x2, y2);
                compared += 1;
                y2 += 9;
            }
            x2 += 11;
        }
    }
    assert_eq!(compared, 7 * 30 * 22);
}

#[test]
fn longest_segments_match_single_precision_arithmetic() {
    for y1 in 0..HEIGHT {
        let mut ours = blank();
        let mut theirs = blank();
        draw_sierra_line(&mut ours, 3, 0, y1 as i128, 319, (189 - y1) as i128);
        float_line(&mut theirs, 3, 0, y1, 319, 189 - y1);
        assert!(ours == theirs, "from row {}", y1);
        let mut ours = blank();
        let mut theirs = blank();
        draw_sierra_line(&mut ours, 3, 313, (189 - y1) as i128, 1, y1 as i128);
        float_line(&mut theirs, 3, 313, 189 - y1, 1, y1);
        assert!(ours == theirs, "to row {}", y1);
    }
    for x1 in 0..WIDTH {
        let mut ours = blank();
        let mut theirs = blank();
        draw_sierra_line(&mut ours, 3, x1 as i128, 0, (319 - x1) as i128, 189);
        float_line(&mut theirs, 3, x1, 0, 319 - x1, 189);
        assert!(ours == theirs, "from column {}", x1);
    }
}

#[test]
fn segment_with_an_end_off_the_canvas_is_not_drawn() {
    let mut picture = blank();
    draw_sierra_line(&mut picture, 1, 0, 0, 320, 0);
    draw_sierra_line(&mut picture, 1, 0, 0, 0, 190);
    draw_sierra_line(&mut picture, 1, -1, 0, 5, 5);
    draw_sierra_line(&mut picture, 1, 5, 5, 7, -3);
    assert_eq!(picture, blank());
    let mut data: Vec<u8> = vec![0xf0, 4, 0xf6];
    data.extend(triple(3, 2));
    data.extend(triple(9, 200));
    data.extend(triple(10, 2));
    data.extend(triple(12, 2));
    data.push(0xff);
    // Only the last segment has both ends on the canvas.
    assert_eq!(painted(&parse(&data)), vec![(10, 2), (11, 2), (12, 2)]);
}

#[test]
fn long_lines_join_point_to_point() {
    let mut data: Vec<u8> = vec![0xf0, 6, 0xf6];
    data.extend(triple(1, 1));
    data.extend(triple(4, 1));
    data.extend(triple(4, 3));
    data.push(0xff);
    assert_eq!(painted(&parse(&data)), vec![(1, 1), (2, 1), (3, 1), (4, 1), (4, 2), (4, 3)]);
}

#[test]
fn medium_lines_move_by_signed_deltas() {
    // Start (10, 10); then y + 2, x + 3; then y - 1 (0x81), x - 2 (0xfe).
    let mut data: Vec<u8> = vec![0xf0, 6, 0xf5];
    data.extend(triple(10, 10));
    data.extend(vec![0x02, 0x03, 0x81, 0xfe]);
    data.push(0xff);
    let mut expected = blank();
    float_line(&mut expected, 6, 10, 10, 13, 12);
    float_line(&mut expected, 6, 13, 12, 11, 11);
    assert_eq!(parse(&data), expected);
    assert_eq!(at(&expected, 13, 12), 6);
    assert_eq!(at(&expected, 11, 11), 6);
}

#[test]
fn medium_lines_stop_where_y_would_go_below_zero() {
    let mut data: Vec<u8> = vec![0xf0, 6, 0xf5];
    data.extend(triple(10, 1));
    data.extend(vec![0x01, 0x01, 0x83, 0x01, 0x01, 0x01]);
    data.push(0xff);
    let mut expected = blank();
    float_line(&mut expected, 6, 10, 1, 11, 2);
    assert_eq!(parse(&data), expected);
}

#[test]
fn medium_lines_may_leave_the_canvas_to_the_left_and_come_back() {
    // Start (1, 5); x - 3 leaves the canvas; x + 4 comes back to (2, 5).
    let mut data: Vec<u8> = vec![0xf0, 6, 0xf5];
    data.extend(triple(1, 5));
    data.extend(vec![0x00, 0xfd, 0x00, 0x04, 0x00, 0x02]);
    data.push(0xff);
    assert_eq!(painted(&parse(&data)), vec![(2, 5), (3, 5), (4, 5)]);
}

#[test]
fn short_lines_move_by_nibbles() {
    // Start (10, 10); 0x21: x + 2, y + 1; 0x9a: x - 1, y - 2.
    let mut data: Vec<u8> = vec![0xf0, 6, 0xf7];
    data.extend(triple(10, 10));
    data.extend(vec![0x21, 0x9a]);
    data.push(0xff);
    let mut expected = blank();
    float_line(&mut expected, 6, 10, 10, 12, 11);
    float_line(&mut expected, 6, 12, 11, 11, 9);
    assert_eq!(parse(&data), expected);
    assert_eq!(at(&expected, 11, 9), 6);
}

#[test]
fn short_lines_stop_where_a_coordinate_would_go_below_zero() {
    let mut data: Vec<u8> = vec![0xf0, 6, 0xf7];
    data.extend(triple(1, 1));
    data.extend(vec![0x10, 0xb0, 0x10]);
    data.push(0xff);
    assert_eq!(painted(&parse(&data)), vec![(1, 1), (2, 1)]);
    let mut data: Vec<u8> = vec![0xf0, 6, 0xf7];
    data.extend(triple(1, 1));
    data.extend(vec![0x0a, 0x10]);
    data.push(0xff);
    assert_eq!(parse(&data), blank());
}

#[test]
fn colour_off_the_palette_becomes_black() {
    for colour in [17u8, 100, 255] {
        let mut data: Vec<u8> = vec![0xf0, colour, 0xf6];
        data.extend(triple(0, 0));
        data.extend(triple(1, 0));
        data.push(0xff);
        let picture = parse(&data);
        assert_eq!(at(&picture, 0, 0), 0);
        assert_eq!(at(&picture, 1, 0), 0);
    }
    let mut data: Vec<u8> = vec![0xf0, 16, 0xf6];
    data.extend(triple(0, 0));
    data.extend(triple(1, 0));
    data.push(0xff);
    assert_eq!(at(&parse(&data), 1, 0), 16);
}

#[test]
fn tokens_without_arguments_keep_the_state() {
    let mut line: Vec<u8> = triple(0, 0);
    line.extend(triple(2, 0));
    let actions = vec![
        ActionArguments { action: Action::SetVisualColour, arguments: vec![3] },
        ActionArguments { action: Action::SetVisualColour, arguments: vec![] },
        ActionArguments { action: Action::SetPattern, arguments: vec![] },
        ActionArguments { action: Action::LongLines, arguments: vec![0, 1] },
        ActionArguments { action: Action::LongLines, arguments: line },
        ActionArguments { action: Action::End, arguments: vec![] },
    ];
    let picture = draw(&actions);
    assert_eq!(painted(&picture), vec![(0, 0), (1, 0), (2, 0)]);
    assert_eq!(at(&picture, 1, 0), 3);
}

#[test]
fn end_stops_the_drawing() {
    let mut data: Vec<u8> = vec![0xf0, 1, 0xff, 0xf6];
    data.extend(triple(0, 0));
    data.extend(triple(5, 0));
    data.push(0xff);
    assert_eq!(parse(&data), blank());
}

#[test]
fn other_planes_and_extensions_draw_nothing() {
    let mut data: Vec<u8> = vec![0xf0, 1, 0xf2, 3, 0xf3, 0xfb, 4, 0xfc, 0xfe, 0, 1, 2, 0xfe, 4];
    data.extend(vec![0xfe, 1]);
    data.extend(vec![7; 41]);
    data.push(0xff);
    assert_eq!(parse(&data), blank());
}

#[test]
fn splitter_errors_reject_the_picture() {
    assert_eq!(Picture::parse(&[0x12]).err(), Some(DecodeError::UnrecognizedOpcode));
    assert_eq!(Picture::parse(&[0xf0]).err(), Some(DecodeError::TruncatedInput));
    assert_eq!(
        Picture::parse(&[0xfe, 0x20, 0xff]).err(),
        Some(DecodeError::UnrecognizedExtensionSubcommand)
    );
}

#[test]
fn same_opcodes_give_the_same_canvas() {
    let mut data: Vec<u8> = vec![0xf0, 5, 0xf6];
    data.extend(triple(10, 10));
    data.extend(triple(100, 80));
    data.extend(triple(30, 150));
    data.extend(triple(10, 10));
    data.extend(vec![0xf0, 9, 0xf8]);
    data.extend(triple(40, 60));
    data.extend(vec![0xf9, 0x25, 0xfa, 17]);
    data.extend(triple(200, 100));
    data.push(0xff);
    let first = parse(&data);
    let second = parse(&data);
    assert!(first == second);
    assert!(first != blank());
}

#[test]
fn fill_colours_the_enclosed_area_only() {
    // A box from (10, 10) to (20, 16), then a fill from inside.
    let mut data: Vec<u8> = vec![0xf0, 0, 0xf6];
    data.extend(triple(10, 10));
    data.extend(triple(20, 10));
    data.extend(triple(20, 16));
    data.extend(triple(10, 16));
    data.extend(triple(10, 10));
    data.extend(vec![0xf0, 4, 0xf8]);
    data.extend(triple(15, 13));
    data.push(0xff);
    let picture = parse(&data);
    for y in 0..HEIGHT {
        for x in 0..WIDTH {
            let inside = 10 < x && x < 20 && 10 < y && y < 16;
            let border =
                (10..=20).contains(&x) && (10..=16).contains(&y) && !inside;
            let expected = if inside {
                4
            } else if border {
                0
            } else {
                WHITE
            };
            assert_eq!(at(&picture, x, y), expected, "at ({}, {})", x, y);
        }
    }
}

#[test]
fn fill_does_not_pass_diagonal_gaps() {
    // A diagonal from (0, 5) to (5, 0) cuts off the corner.
    let mut data: Vec<u8> = vec![0xf0, 0, 0xf6];
    data.extend(triple(0, 5));
    data.extend(triple(5, 0));
    data.extend(vec![0xf0, 2, 0xf8]);
    data.extend(triple(0, 0));
    data.push(0xff);
    let picture = parse(&data);
    let filled: Vec<(usize, usize)> =
        painted(&picture).into_iter().filter(|(x, y)| at(&picture, *x, *y) == 2).collect();
    let mut expected: Vec<(usize, usize)> = Vec::new();
    for y in 0..5 {
        for x in 0..(5 - y) {
            expected.push((x, y));
        }
    }
    assert_eq!(filled, expected);
}

#[test]
fn fill_of_the_whole_canvas() {
    let mut data: Vec<u8> = vec![0xf0, 9, 0xf8];
    data.extend(triple(319, 189));
    data.push(0xff);
    assert_eq!(parse(&data), vec![9u8; WIDTH * HEIGHT]);
}

#[test]
fn fill_skips_seeds_off_the_canvas_and_seeds_that_are_not_white() {
    let mut data: Vec<u8> = vec![0xf0, 1, 0xf6];
    data.extend(triple(5, 5));
    data.extend(triple(6, 5));
    data.extend(vec![0xf0, 9, 0xf8]);
    data.extend(triple(320, 0));
    data.extend(triple(0, 190));
    data.extend(triple(3000, 3000));
    data.extend(triple(5, 5));
    data.push(0xff);
    assert_eq!(painted(&parse(&data)), vec![(5, 5), (6, 5)]);
}

#[test]
fn fill_with_white_changes_nothing() {
    let mut data: Vec<u8> = vec![0xf0, 15, 0xf8];
    data.extend(triple(3, 3));
    data.push(0xff);
    assert_eq!(parse(&data), blank());
}

#[test]
fn second_fill_sees_the_first() {
    let mut data: Vec<u8> = vec![0xf0, 0, 0xf6];
    data.extend(triple(100, 0));
    data.extend(triple(100, 189));
    data.extend(vec![0xf0, 3, 0xf8]);
    data.extend(triple(0, 0));
    data.extend(triple(50, 50));
    data.extend(triple(200, 50));
    data.push(0xff);
    let picture = parse(&data);
    assert_eq!(at(&picture, 99, 189), 3);
    assert_eq!(at(&picture, 100, 100), 0);
    assert_eq!(at(&picture, 101, 0), 3);
    assert_eq!(at(&picture, 319, 189), 3);
}

const CIRCLES: [&[&str]; 8] = [
    &["X"],
    &["XXX", "XXX", "XXX"],
    &[" XXX ", "XXXXX", "XXXXX", "XXXXX", " XXX "],
    &["  XXX  ", " XXXXX ", "XXXXXXX", "XXXXXXX", "XXXXXXX", " XXXXX ", "  XXX  "],
    &[
        "  XXXXX  ",
        " XXXXXXX ",
        "XXXXXXXXX",
        "XXXXXXXXX",
        "XXXXXXXXX",
        "XXXXXXXXX",
        "XXXXXXXXX",
        " XXXXXXX ",
        "  XXXXX  ",
    ],
    &[
        "    XXX    ",
        " XXXXXXXXX ",
        "XXXXXXXXXXX",
        "XXXXXXXXXXX",
        "XXXXXXXXXXX",
        "XXXXXXXXXXX",
        "XXXXXXXXXXX",
        "XXXXXXXXXXX",
        "XXXXXXXXXXX",
        " XXXXXXXXX ",
        "    XXX    ",
    ],
    &[
        "    XXXXX    ",
        " XXXXXXXXXXX ",
        "XXXXXXXXXXXXX",
        "XXXXXXXXXXXXX",
        "XXXXXXXXXXXXX",
        "XXXXXXXXXXXXX",
        "XXXXXXXXXXXXX",
        "XXXXXXXXXXXXX",
        "XXXXXXXXXXXXX",
        "XXXXXXXXXXXXX",
        "XXXXXXXXXXXXX",
        " XXXXXXXXXXX ",
        "    XXXXX    ",
    ],
    &[
        "     XXXXX     ",
        "  XXXXXXXXXXX  ",
        " XXXXXXXXXXXXX ",
        "XXXXXXXXXXXXXXX",
        "XXXXXXXXXXXXXXX",
        "XXXXXXXXXXXXXXX",
        "XXXXXXXXXXXXXXX",
        "XXXXXXXXXXXXXXX",
        "XXXXXXXXXXXXXXX",
        "XXXXXXXXXXXXXXX",
        "XXXXXXXXXXXXXXX",
        "XXXXXXXXXXXXXXX",
        " XXXXXXXXXXXXX ",
        "  XXXXXXXXXXX  ",
        "     XXXXX     ",
    ],
];

const TEXTURE: [u8; 32] = [
    0x20, 0x94, 0x02, 0x24, 0x90, 0x82, 0xa4, 0xa2, 0x82, 0x09, 0x0a, 0x22, 0x12, 0x10, 0x42, 0x14,
    0x91, 0x4a, 0x91, 0x11, 0x08, 0x12, 0x25, 0x10, 0x22, 0xa8, 0x14, 0x24, 0x00, 0x50, 0x24, 0x04,
];

const PATTERNS: [u8; 120] = [
    0x00, 0x18, 0x30, 0xc4, 0xdc, 0x65, 0xeb, 0x48, 0x60, 0xbd, 0x89, 0x04, 0x0a, 0xf4, 0x7d, 0x6d,
    0x85, 0xb0, 0x8e, 0x95, 0x1f, 0x22, 0x0d, 0xdf, 0x2a, 0x78, 0xd5, 0x73, 0x1c, 0xb4, 0x40, 0xa1,
    0xb9, 0x3c, 0xca, 0x58, 0x92, 0x34, 0xcc, 0xce, 0xd7, 0x42, 0x90, 0x0f, 0x8b, 0x7f, 0x32, 0xed,
    0x5c, 0x9d, 0xc8, 0x99, 0xad, 0x4e, 0x56, 0xa6, 0xf7, 0x68, 0xb7, 0x25, 0x82, 0x37, 0x3a, 0x51,
    0x69, 0x26, 0x38, 0x52, 0x9e, 0x9a, 0x4f, 0xa7, 0x43, 0x10, 0x80, 0xee, 0x3d, 0x59, 0x35, 0xcf,
    0x79, 0x74, 0xb5, 0xa2, 0xb1, 0x96, 0x23, 0xe0, 0xbe, 0x05, 0xf5, 0x6e, 0x19, 0xc5, 0x66, 0x49,
    0xf0, 0xd1, 0x54, 0xa9, 0x70, 0x4b, 0xa4, 0xe2, 0xe6, 0xe5, 0xab, 0xe4, 0xd2, 0xaa, 0x4c, 0xe3,
    0x06, 0x6f, 0xc6, 0x4a, 0x75, 0xa3, 0x97, 0xe1,
];

/// A stamp, worked out from the shapes as drawn above.
fn stamp(
    picture: &mut [u8],
    colour: u8,
    x: isize,
    y: isize,
    pattern_number: usize,
    size: usize,
    is_pattern: bool,
    is_rectangle: bool,
) {
    let mut byte = PATTERNS[pattern_number % 120] as usize;
    let mut bit = 7;
    let side = 2 * size + 1;
    for yi in 0..side {
        for xi in 0..side {
            let mut keep = true;
            if is_pattern {
                keep = (TEXTURE[byte % 32] >> bit) & 1 != 0;
                if bit == 0 {
                    bit = 7;
                    byte += 1;
                } else {
                    bit -= 1;
                }
            }
            let px = x - size as isize + xi as isize;
            let py = y - size as isize + yi as isize;
            let shaped = is_rectangle || CIRCLES[size][yi].as_bytes()[xi] == b'X';
            if keep && shaped && 0 <= px && px < 320 && 0 <= py && py < 190 {
                picture[py as usize * WIDTH + px as usize] = colour;
            }
        }
    }
}

#[test]
fn solid_circles_have_their_shapes() {
    for size in 0..8usize {
        let mut data: Vec<u8> = vec![0xf0, 1, 0xf9, size as u8, 0xfa];
        data.extend(triple(100, 100));
        data.push(0xff);
        let picture = parse(&data);
        let side = 2 * size + 1;
        let mut expected: Vec<(usize, usize)> = Vec::new();
        for yi in 0..side {
            for xi in 0..side {
                if CIRCLES[size][yi].as_bytes()[xi] == b'X' {
                    expected.push((100 - size + xi, 100 - size + yi));
                }
            }
        }
        assert_eq!(painted(&picture), expected, "size {}", size);
    }
}

#[test]
fn solid_rectangles_are_squares() {
    for size in 0..8usize {
        let mut data: Vec<u8> = vec![0xf0, 1, 0xf9, 0x10 | size as u8, 0xfa];
        data.extend(triple(50, 60));
        data.push(0xff);
        let picture = parse(&data);
        let mut expected: Vec<(usize, usize)> = Vec::new();
        for y in (60 - size)..=(60 + size) {
            for x in (50 - size)..=(50 + size) {
                expected.push((x, y));
            }
        }
        assert_eq!(painted(&picture), expected, "size {}", size);
    }
}

#[test]
fn brush_size_is_the_low_three_bits() {
    let mut data: Vec<u8> = vec![0xf0, 1, 0xf9, 0x0a, 0xfa];
    data.extend(triple(100, 100));
    data.push(0xff);
    // 0x0a & 7 is 2.
    assert_eq!(painted(&parse(&data)).len(), 21);
}

#[test]
fn first_stamp_before_any_set_pattern_is_one_pixel() {
    let mut data: Vec<u8> = vec![0xf0, 1, 0xfa];
    data.extend(triple(100, 100));
    data.push(0xff);
    assert_eq!(painted(&parse(&data)), vec![(100, 100)]);
}

#[test]
fn textured_brushes_follow_the_texture() {
    for pattern_number in [0usize, 1, 5, 17, 77, 119, 120, 200, 255] {
        for size in 0..8usize {
            for is_rectangle in [false, true] {
                let mut ours = blank();
                let mut theirs = blank();
                draw_pattern(&mut ours, 2, 33, 44, pattern_number, size, true, is_rectangle);
                stamp(&mut theirs, 2, 33, 44, pattern_number, size, true, is_rectangle);
                assert!(
                    ours == theirs,
                    "pattern {} size {} rectangle {}",
                    pattern_number,
                    size,
                    is_rectangle
                );
            }
        }
    }
}

#[test]
fn textured_rectangle_of_size_one() {
    // Pattern 1 starts at texture byte 0x18 (0x22, 0xa8): bits 0010 0010 1.
    let mut data: Vec<u8> = vec![0xf0, 1, 0xf9, 0x31, 0xfa, 1];
    data.extend(triple(10, 10));
    data.push(0xff);
    assert_eq!(painted(&parse(&data)), vec![(11, 9), (9, 11), (11, 11)]);
}

#[test]
fn brushes_are_cut_at_the_canvas_edge() {
    for (x, y) in [(0isize, 0isize), (319, 189), (2, 187), (317, 3), (-3, 5), (322, 100), (4095, 4095)] {
        for is_pattern in [false, true] {
            let mut ours = blank();
            let mut theirs = blank();
            draw_pattern(&mut ours, 2, x as i128, y as i128, 9, 7, is_pattern, false);
            stamp(&mut theirs, 2, x, y, 9, 7, is_pattern, false);
            assert!(ours == theirs, "at ({}, {})", x, y);
        }
    }
}

#[test]
fn long_patterns_stamp_each_point() {
    let mut data: Vec<u8> = vec![0xf0, 7, 0xf9, 0x11, 0xfa];
    data.extend(triple(10, 10));
    data.extend(triple(20, 10));
    data.push(0xff);
    let mut expected = blank();
    stamp(&mut expected, 7, 10, 10, 0, 1, false, true);
    stamp(&mut expected, 7, 20, 10, 0, 1, false, true);
    assert_eq!(parse(&data), expected);
    assert_eq!(painted(&expected).len(), 18);
}

#[test]
fn long_patterns_with_numbers() {
    let mut data: Vec<u8> = vec![0xf0, 7, 0xf9, 0x23, 0xfa, 4];
    data.extend(triple(10, 10));
    data.push(60);
    data.extend(triple(40, 30));
    data.push(0xff);
    let mut expected = blank();
    stamp(&mut expected, 7, 10, 10, 4, 3, true, false);
    stamp(&mut expected, 7, 40, 30, 60, 3, true, false);
    assert_eq!(parse(&data), expected);
}

#[test]
fn medium_patterns_move_by_signed_deltas() {
    let mut data: Vec<u8> = vec![0xf0, 7, 0xf9, 0x12, 0xfd];
    data.extend(triple(50, 50));
    data.extend(vec![0x05, 0x0a, 0x83, 0xf0]);
    data.push(0xff);
    let mut expected = blank();
    stamp(&mut expected, 7, 50, 50, 0, 2, false, true);
    stamp(&mut expected, 7, 60, 55, 0, 2, false, true);
    stamp(&mut expected, 7, 44, 52, 0, 2, false, true);
    assert_eq!(parse(&data), expected);
}

#[test]
fn medium_patterns_with_numbers_stop_below_zero() {
    let mut data: Vec<u8> = vec![0xf0, 7, 0xf9, 0x22, 0xfd, 3];
    data.extend(triple(50, 2));
    data.extend(vec![9, 0x01, 0x02, 10, 0x84, 0x02, 11, 0x01, 0x02]);
    data.push(0xff);
    let mut expected = blank();
    stamp(&mut expected, 7, 50, 2, 3, 2, true, false);
    stamp(&mut expected, 7, 52, 3, 9, 2, true, false);
    // The move by -4 would take y below zero and ends the token.
    assert_eq!(parse(&data), expected);
}

#[test]
fn short_patterns_move_by_nibbles() {
    let mut data: Vec<u8> = vec![0xf0, 7, 0xf9, 0x11, 0xf4];
    data.extend(triple(50, 50));
    data.extend(vec![0x73, 0xb9]);
    data.push(0xff);
    let mut expected = blank();
    stamp(&mut expected, 7, 50, 50, 0, 1, false, true);
    stamp(&mut expected, 7, 57, 53, 0, 1, false, true);
    stamp(&mut expected, 7, 54, 52, 0, 1, false, true);
    assert_eq!(parse(&data), expected);
}

#[test]
fn short_patterns_with_numbers_stop_below_zero() {
    let mut data: Vec<u8> = vec![0xf0, 7, 0xf9, 0x21, 0xf4, 30];
    data.extend(triple(1, 50));
    data.extend(vec![31, 0x11, 32, 0xb0, 33, 0x11]);
    data.push(0xff);
    let mut expected = blank();
    stamp(&mut expected, 7, 1, 50, 30, 1, true, false);
    stamp(&mut expected, 7, 2, 51, 31, 1, true, false);
    assert_eq!(parse(&data), expected);
}

#[test]
fn looping_stream_starts_over() {
    let data: Vec<u8> = vec![0b1010_0000, 0b0000_0001];
    let mut stream = LoopingPatternBitStream::new(&data, 1);
    let mut bits: Vec<bool> = Vec::new();
    for _ in 0..19 {
        bits.push(stream.next());
    }
    let expected: Vec<bool> = vec![
        false, false, false, false, false, false, false, true, true, false, true, false, false,
        false, false, false, false, false, false,
    ];
    assert_eq!(bits, expected);
}

#[test]
fn looping_stream_wraps_its_start() {
    let data: Vec<u8> = vec![0x80, 0x01];
    let mut stream = LoopingPatternBitStream::new(&data, 5);
    assert!(!stream.next());
    let mut stream = LoopingPatternBitStream::new(&data, 4);
    assert!(stream.next());
}

#[test]
fn picture_of_lines_fill_and_brushes() {
    // A house: walls and roof in black, the wall filled red, a round window.
    let mut data: Vec<u8> = vec![0xf0, 0, 0xf6];
    data.extend(triple(100, 100));
    data.extend(triple(140, 100));
    data.extend(triple(140, 140));
    data.extend(triple(100, 140));
    data.extend(triple(100, 100));
    data.extend(triple(120, 80));
    data.extend(triple(140, 100));
    data.extend(vec![0xf0, 4, 0xf8]);
    data.extend(triple(120, 120));
    data.extend(vec![0xf0, 11, 0xf9, 0x03, 0xfa]);
    data.extend(triple(120, 120));
    data.push(0xff);
    let picture = parse(&data);
    let mut expected = blank();
    float_line(&mut expected, 0, 100, 100, 140, 100);
    float_line(&mut expected, 0, 140, 100, 140, 140);
    float_line(&mut expected, 0, 140, 140, 100, 140);
    float_line(&mut expected, 0, 100, 140, 100, 100);
    float_line(&mut expected, 0, 100, 100, 120, 80);
    float_line(&mut expected, 0, 120, 80, 140, 100);
    for y in 101..140 {
        for x in 101..140 {
            expected[y * WIDTH + x] = 4;
        }
    }
    stamp(&mut expected, 11, 120, 120, 0, 3, false, false);
    assert!(picture == expected);
    assert_eq!(at(&picture, 120, 120), 11);
    assert_eq!(at(&picture, 110, 130), 4);
    assert_eq!(at(&picture, 120, 80), 0);
    assert_eq!(at(&picture, 110, 90), 0);
    assert_eq!(at(&picture, 120, 90), WHITE);
    assert_eq!(painted(&picture).len(), 41 * 41 + 39);
}

#[test]
fn state_changes_only_where_a_token_says_so() {
    let mut picture = blank();
    let start = InterpreterState::new();
    assert_eq!(
        start,
        InterpreterState {
            is_drawing: false,
            colour: WHITE,
            is_rectangle: true,
            is_pattern: false,
            pattern_size: 0,
        }
    );
    let token = |action: Action, arguments: &[u8]| ActionArguments {
        action,
        arguments: arguments.to_vec(),
    };
    let coloured = run_action(start, &mut picture, &token(Action::SetVisualColour, &[3]));
    assert_eq!(coloured, InterpreterState { is_drawing: true, colour: 3, ..start });
    let brushed = run_action(coloured, &mut picture, &token(Action::SetPattern, &[0x25]));
    assert_eq!(
        brushed,
        InterpreterState { is_rectangle: false, is_pattern: true, pattern_size: 5, ..coloured }
    );
    let squared = run_action(brushed, &mut picture, &token(Action::SetPattern, &[0xd7]));
    assert_eq!(
        squared,
        InterpreterState { is_rectangle: true, is_pattern: false, pattern_size: 7, ..coloured }
    );
    let off = run_action(squared, &mut picture, &token(Action::DisableVisual, &[]));
    assert_eq!(off, InterpreterState { is_drawing: false, ..squared });
    assert_eq!(picture, blank());
    // Every other token leaves the state alone.
    let mut line = triple(0, 0);
    line.extend(triple(3, 0));
    for action in [
        Action::SetPriorityColour,
        Action::DisablePriority,
        Action::SetControlColour,
        Action::DisableControl,
        Action::CommandExtensions,
        Action::LongLines,
        Action::MediumRelativeLines,
        Action::ShortRelativeLines,
        Action::LongPatterns,
        Action::MediumRelativePatterns,
        Action::ShortRelativePatterns,
        Action::FloodFill,
        Action::End,
    ] {
        assert_eq!(run_action(squared, &mut picture, &token(action, &line)), squared);
        assert_eq!(run_action(off, &mut picture, &token(action, &line)), off);
    }
}

#[test]
fn one_token_draws_on_the_canvas_it_is_given() {
    let state = InterpreterState {
        is_drawing: true,
        colour: 5,
        is_rectangle: true,
        is_pattern: false,
        pattern_size: 1,
    };
    let mut picture = blank();
    let arguments = triple(10, 10);
    let next =
        run_action(state, &mut picture, &ActionArguments { action: Action::LongPatterns, arguments });
    assert_eq!(next, state);
    assert_eq!(painted(&picture).len(), 9);
    assert_eq!(at(&picture, 11, 11), 5);
}

#[test]
fn every_pixel_is_a_palette_index() {
    let mut data: Vec<u8> = vec![0xf0, 200, 0xf6];
    data.extend(triple(10, 10));
    data.extend(triple(100, 80));
    data.extend(vec![0xf0, 16, 0xf9, 0x37, 0xfa, 3]);
    data.extend(triple(50, 50));
    data.extend(vec![0xf0, 0xef, 0xf8]);
    data.extend(triple(0, 0));
    data.push(0xff);
    let picture = parse(&data);
    assert_eq!(picture.len(), WIDTH * HEIGHT);
    assert!(picture.iter().all(|p| *p <= 16));
    assert_eq!(at(&picture, 0, 0), 0);
    assert_eq!(at(&picture, 100, 80), 0);
    assert!(picture.contains(&16));
}

#[test]
fn segments_from_a_grid_match_single_precision_arithmetic() {
    let mut ours = blank();
    let mut theirs = blank();
    let mut compared = 0;
    let mut x1 = 0;
    while x1 < WIDTH {
        let mut y1 = 0;
        while y1 < HEIGHT {
            let mut x2 = (x1 + y1) % 5;
            while x2 < WIDTH {
                let mut y2 = (x1 + y1) % 3;
                while y2 < HEIGHT {
                    draw_sierra_line(&mut ours, 3, x1 as i128, y1 as i128, x2 as i128, y2 as i128);
                    float_line(&mut theirs, 3, x1, y1, x2, y2);
                    assert!(ours == theirs, "segment ({}, {}) to ({}, {})", x1, y1, x2, y2);
                    // Drawn again in white, the canvases are blank again.
                    draw_sierra_line(
                        &mut ours,
                        WHITE,
                        x1 as i128,
                        y1 as i128,
                        x2 as i128,
                        y2 as i128,
                    );
                    float_line(&mut theirs, WHITE, x1, y1, x2, y2);
                    compared += 1;
                    y2 += 3;
                }
                x2 += 5;
            }
            y1 += 31;
        }
        x1 += 29;
    }
    assert!(compared > 300000);
    assert!(ours == blank());
}
