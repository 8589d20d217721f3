use sci_quest_decoder::error::DecodeError;
use sci_quest_decoder::renderer::{
    frame_size, interpolate_rgba, is_animation, pad_cel, padded_frames, rgba_from_indexed_colour,
    scaled_rgbas_from_cel_crt_3, scaled_rgbas_from_cel_crt_6,
    scaled_rgbas_from_cel_nearest_neighbour, squeeze_six_to_five,
};
use sci_quest_decoder::view::{Cel, Loop, View};

const T: u8 = 16;

fn le(value: usize) -> Vec<u8> {
    vec![(value & 0xff) as u8, (value >> 8) as u8]
}

fn cel_bytes(width: usize, height: usize, transparent: u8, runs: &[u8]) -> Vec<u8> {
    let mut bytes = le(width);
    bytes.extend(le(height));
    bytes.extend(vec![0, 0, transparent]);
    bytes.extend(runs.to_vec());
    bytes
}

/// A view of one loop; the last cel holds all the runs up to the end.
fn view_bytes(mirror_flags: usize, cels: &[Vec<u8>]) -> Vec<u8> {
    let mut data = le(1);
    data.extend(le(mirror_flags));
    data.extend(vec![0; 4]);
    data.extend(le(10));
    // The loop:
    data.extend(le(cels.len()));
    data.extend(vec![0; 2]);
    let mut position = 14 + 2 * cels.len();
    for cel in cels {
        data.extend(le(position));
        position += cel.len();
    }
    for cel in cels {
        data.extend(cel.clone());
    }
    data
}

fn cel(width: usize, height: usize, pixels: &[u8]) -> Cel {
    Cel { width, height, pixels: pixels.to_vec() }
}

#[test]
fn cel_runs_are_expanded_and_filled_up() {
    let data = view_bytes(0, &[cel_bytes(3, 2, 0, &[0x21, 0x10, 0x15])]);
    let view = View::parse(&data).unwrap();
    assert_eq!(view.loops.len(), 1);
    assert_eq!(view.loops[0].cels.len(), 1);
    let parsed = &view.loops[0].cels[0];
    assert_eq!(parsed.width, 3);
    assert_eq!(parsed.height, 2);
    assert_eq!(parsed.pixels, vec![1, 1, T, 5, T, T]);
}

#[test]
fn cel_runs_are_cut_at_the_area() {
    let data = view_bytes(0, &[cel_bytes(2, 2, 9, &[0x31, 0x32, 0x33])]);
    let view = View::parse(&data).unwrap();
    assert_eq!(view.loops[0].cels[0].pixels, vec![1, 1, 1, 2]);
}

#[test]
fn run_of_length_zero_adds_nothing() {
    let data = view_bytes(0, &[cel_bytes(2, 1, 9, &[0x05, 0x16, 0x07, 0x18])]);
    let view = View::parse(&data).unwrap();
    assert_eq!(view.loops[0].cels[0].pixels, vec![6, 8]);
}

#[test]
fn mirrored_loop_turns_each_row() {
    let data = view_bytes(1, &[cel_bytes(3, 2, 0, &[0x21, 0x10, 0x15])]);
    let view = View::parse(&data).unwrap();
    assert_eq!(view.loops[0].cels[0].pixels, vec![T, 1, 1, T, T, 5]);
    // Bit 1 is for the second loop, not the first.
    let data = view_bytes(2, &[cel_bytes(3, 2, 0, &[0x21, 0x10, 0x15])]);
    let view = View::parse(&data).unwrap();
    assert_eq!(view.loops[0].cels[0].pixels, vec![1, 1, T, 5, T, T]);
}

#[test]
fn cel_without_area_has_no_pixels() {
    let data = view_bytes(1, &[cel_bytes(0, 3, 0, &[0x21])]);
    let view = View::parse(&data).unwrap();
    assert_eq!(view.loops[0].cels[0].pixels, Vec::<u8>::new());
    assert_eq!(view.loops[0].cels[0].height, 3);
}

#[test]
fn cels_of_a_loop_come_in_order() {
    // Each cel reads runs up to the end of the data.
    let first = cel_bytes(1, 1, 9, &[0x13]);
    let second = cel_bytes(1, 2, 9, &[0x14, 0x15]);
    let data = view_bytes(0, &[first, second]);
    let view = View::parse(&data).unwrap();
    let pixels: Vec<Vec<u8>> = view.loops[0].cels.iter().map(|c| c.pixels.clone()).collect();
    assert_eq!(pixels, vec![vec![3], vec![4, 5]]);
    assert!(is_animation(&view.loops[0]));
}

#[test]
fn view_of_two_loops() {
    let mut data = le(2);
    data.extend(le(2));
    data.extend(vec![0; 4]);
    data.extend(le(12));
    data.extend(le(12));
    // Both loops share one loop record and one cel.
    data.extend(le(1));
    data.extend(vec![0; 2]);
    data.extend(le(18));
    data.extend(cel_bytes(2, 1, 9, &[0x11, 0x12]));
    let view = View::parse(&data).unwrap();
    assert_eq!(view.loops.len(), 2);
    assert_eq!(view.loops[0].cels[0].pixels, vec![1, 2]);
    assert_eq!(view.loops[1].cels[0].pixels, vec![2, 1]);
}

#[test]
fn view_without_loops() {
    let view = View::parse(&[0, 0, 0, 0]).unwrap();
    assert!(view.loops.is_empty());
}

#[test]
fn short_views_are_truncated() {
    assert_eq!(View::parse(&[]).err(), Some(DecodeError::TruncatedInput));
    assert_eq!(View::parse(&[1, 0, 0]).err(), Some(DecodeError::TruncatedInput));
    assert_eq!(View::parse(&[1, 0, 0, 0, 0, 0, 0, 0, 10]).err(), Some(DecodeError::TruncatedInput));
    let whole = view_bytes(0, &[cel_bytes(3, 2, 0, &[])]);
    assert!(View::parse(&whole).is_ok());
    for cut in 4..whole.len() {
        assert_eq!(
            View::parse(&whole[..cut]).err(),
            Some(DecodeError::TruncatedInput),
            "cut at {}",
            cut
        );
    }
    // A loop position behind the data.
    let mut far = whole.clone();
    far[8] = 200;
    assert_eq!(View::parse(&far).err(), Some(DecodeError::TruncatedInput));
    // A cel position behind the data.
    let mut far = whole.clone();
    far[14] = 200;
    assert_eq!(View::parse(&far).err(), Some(DecodeError::TruncatedInput));
}

#[test]
fn loop_and_cel_parse_at_a_position() {
    let data = view_bytes(0, &[cel_bytes(2, 1, 1, &[0x11, 0x12])]);
    let parsed = Cel::parse(&data, 16, false).unwrap();
    assert_eq!(parsed.pixels, vec![T, 2]);
    let mirrored = Cel::parse(&data, 16, true).unwrap();
    assert_eq!(mirrored.pixels, vec![2, T]);
    let view_loop = Loop::parse(&data, 10, true).unwrap();
    assert_eq!(view_loop.cels[0].pixels, vec![2, T]);
    assert!(!is_animation(&view_loop));
    assert_eq!(Loop::parse(&data, 11, false).unwrap().cels.len(), 0);
    assert_eq!(
        Loop::parse(&data, data.len() - 3, false).err(),
        Some(DecodeError::TruncatedInput)
    );
    assert_eq!(Cel::parse(&data, data.len() - 6, false).err(), Some(DecodeError::TruncatedInput));
}

#[test]
fn colours_half_way() {
    assert_eq!(interpolate_rgba(0xff0000ff, 0x00ff00ff), 0x7f7f00ff);
    assert_eq!(interpolate_rgba(0x01030507, 0x02040608), 0x01030507);
    assert_eq!(interpolate_rgba(0xffffffff, 0xffffffff), 0xffffffff);
    assert_eq!(interpolate_rgba(0, 0), 0);
    assert_eq!(interpolate_rgba(0x10203040, 0x30405060), 0x20304050);
}

#[test]
fn pixel_colours() {
    assert_eq!(rgba_from_indexed_colour(0, false), 0x000000ff);
    assert_eq!(rgba_from_indexed_colour(3, false), 0x00aaaaff);
    assert_eq!(rgba_from_indexed_colour(6, false), 0xaa5500ff);
    assert_eq!(rgba_from_indexed_colour(15, false), 0xffffffff);
    assert_eq!(rgba_from_indexed_colour(16, false), 0);
    // Both nibbles alike: the colour itself.
    assert_eq!(rgba_from_indexed_colour(0x33, true), 0x00aaaaff);
    assert_eq!(rgba_from_indexed_colour(0xff, true), 0xffffffff);
    // Bright red and red: half way.
    assert_eq!(rgba_from_indexed_colour(0x4c, true), 0xd42a2aff);
    assert_eq!(rgba_from_indexed_colour(0xc4, true), 0xd42a2aff);
    assert_eq!(rgba_from_indexed_colour(0x0f, true), 0x7f7f7fff);
}

#[test]
fn padding_goes_above_and_to_the_right() {
    let small = cel(2, 1, &[1, 2]);
    let padded = pad_cel(&small, 3, 2);
    assert_eq!(padded.width, 3);
    assert_eq!(padded.height, 2);
    assert_eq!(padded.pixels, vec![T, T, T, 1, 2, T]);
    let same = pad_cel(&small, 2, 1);
    assert_eq!(same.pixels, vec![1, 2]);
    let taller = pad_cel(&cel(2, 2, &[1, 2, 3, 4]), 2, 3);
    assert_eq!(taller.pixels, vec![T, T, 1, 2, 3, 4]);
    let wider = pad_cel(&cel(1, 2, &[1, 2]), 3, 2);
    assert_eq!(wider.pixels, vec![1, T, T, 2, T, T]);
}

#[test]
fn frames_are_as_large_as_the_largest_cel() {
    let cels = vec![cel(2, 5, &[0; 10]), cel(4, 1, &[0; 4]), cel(3, 3, &[0; 9])];
    assert_eq!(frame_size(&Loop { cels }), (4, 5));
    assert_eq!(frame_size(&Loop { cels: vec![] }), (0, 0));
}

#[test]
fn nearest_neighbour_repeats_pixels() {
    let black = 0x000000ffu32;
    let white = 0xffffffffu32;
    let blue = 0x0000aaffu32;
    let rgbas = scaled_rgbas_from_cel_nearest_neighbour(&cel(2, 2, &[0, 15, 1, 0]), false);
    assert_eq!(rgbas.len(), 2 * 5 * 2 * 6);
    let mut expected: Vec<u32> = Vec::new();
    for _ in 0..6 {
        expected.extend(vec![black; 5]);
        expected.extend(vec![white; 5]);
    }
    for _ in 0..6 {
        expected.extend(vec![blue; 5]);
        expected.extend(vec![black; 5]);
    }
    assert_eq!(rgbas, expected);
    let dithered = scaled_rgbas_from_cel_nearest_neighbour(&cel(1, 1, &[0x4c]), true);
    assert_eq!(dithered, vec![0xd42a2aff; 30]);
}

#[test]
fn six_pixels_are_squeezed_to_five() {
    let scaled: Vec<u32> = vec![1, 2, 0x10203040, 0x30405060, 5, 6, 7, 8, 10, 20, 11, 12, 99];
    assert_eq!(squeeze_six_to_five(&scaled), vec![1, 2, 0x20304050, 5, 6, 7, 8, 15, 11, 12]);
    assert_eq!(squeeze_six_to_five(&[1, 2, 3, 4, 5]), Vec::<u32>::new());
}

#[test]
fn crt_six_lays_out_phosphors() {
    // One yellow-brown pixel a row, two rows.
    let rgbas = scaled_rgbas_from_cel_crt_6(&cel(1, 2, &[6, 6]), false);
    let r = 0xaa0000ffu32;
    let g = 0x005500ffu32;
    let b = 0x000000ffu32;
    let rgb = vec![r, r, g, g, b, b];
    let gbr = vec![g, b, b, r, r, g];
    let mut expected: Vec<u32> = Vec::new();
    for line in [&gbr, &gbr, &rgb, &rgb, &gbr, &gbr, &rgb, &rgb, &gbr, &gbr, &rgb, &rgb] {
        expected.extend(line.iter());
    }
    assert_eq!(rgbas, expected);
}

#[test]
fn crt_three_lays_out_phosphors() {
    let rgbas = scaled_rgbas_from_cel_crt_3(&cel(2, 1, &[6, 15]), false);
    let (r, g, b) = (0xaa0000ffu32, 0x005500ffu32, 0x000000ffu32);
    let (wr, wg, wb) = (0xff0000ffu32, 0x00ff00ffu32, 0x0000ffffu32);
    let expected: Vec<u32> = vec![
        r, g, b, wr, wg, wb,
        b, r, g, wb, wr, wg,
        g, b, r, wg, wb, wr,
    ];
    assert_eq!(rgbas, expected);
}

#[test]
fn frames_of_a_loop_have_one_size() {
    let cels = vec![cel(1, 2, &[1, 2]), cel(2, 1, &[3, 4]), cel(2, 2, &[5, 6, 7, 8])];
    let frames = padded_frames(&Loop { cels });
    assert_eq!(frames.len(), 3);
    assert!(frames.iter().all(|f| f.width == 2 && f.height == 2));
    assert_eq!(frames[0].pixels, vec![1, T, 2, T]);
    assert_eq!(frames[1].pixels, vec![T, T, 3, 4]);
    assert_eq!(frames[2].pixels, vec![5, 6, 7, 8]);
    assert!(padded_frames(&Loop { cels: vec![] }).is_empty());
}
