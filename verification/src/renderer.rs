//! Turns cels and pictures into RGBA pixels at a size fit to be seen.
//!
//! The games were drawn at 320 by 200 on a 4:3 screen, so a pixel is 1.2
//! times as high as wide. Five times the width and six times the height
//! keep that ratio.

use vstd::prelude::*;
use crate::palette::{TRANSPARENT, PALETTE_SIZE, palette_rgba, rgba_of};
use crate::view::{Cel, CelModel, Loop};

verus! {

/// By how much a cel grows in width.
pub const WIDTH_MULTIPLIER: usize = 5;

/// By how much a cel grows in height.
pub const HEIGHT_MULTIPLIER: usize = 6;

/// A loop of two cels or more is an animation, also where the cels differ
/// in size.
pub fn is_animation(viewloop: &Loop) -> (animated: bool)
    ensures
        animated == (viewloop.cels@.len() >= 2),
{
    viewloop.cels.len() >= 2
}

/// The colour half way between two colours, channel by channel, each half
/// rounded down.
pub open spec fn interpolated(x: u32, y: u32) -> u32 {
    let r = (x as int / 0x100_0000 + y as int / 0x100_0000) / 2;
    let g = ((x as int / 0x1_0000) % 256 + (y as int / 0x1_0000) % 256) / 2;
    let b = ((x as int / 0x100) % 256 + (y as int / 0x100) % 256) / 2;
    let a = (x as int % 256 + y as int % 256) / 2;
    (r * 0x100_0000 + g * 0x1_0000 + b * 0x100 + a) as u32
}

/// Computes [`interpolated`].
pub fn interpolate_rgba(x: u32, y: u32) -> (mixed: u32)
    ensures
        mixed == interpolated(x, y),
{
    let r1 = x >> 24;
    let g1 = (x >> 16) & 0xff;
    let b1 = (x >> 8) & 0xff;
    let a1 = x & 0xff;
    let r2 = y >> 24;
    let g2 = (y >> 16) & 0xff;
    let b2 = (y >> 8) & 0xff;
    let a2 = y & 0xff;
    assert(r1 == x / 0x100_0000 && g1 == (x / 0x1_0000) % 256 && b1 == (x / 0x100) % 256 && a1 == x
        % 256) by (bit_vector)
        requires
            r1 == x >> 24,
            g1 == (x >> 16) & 0xff,
            b1 == (x >> 8) & 0xff,
            a1 == x & 0xff,
    ;
    assert(r2 == y / 0x100_0000 && g2 == (y / 0x1_0000) % 256 && b2 == (y / 0x100) % 256 && a2 == y
        % 256) by (bit_vector)
        requires
            r2 == y >> 24,
            g2 == (y >> 16) & 0xff,
            b2 == (y >> 8) & 0xff,
            a2 == y & 0xff,
    ;
    let r = (r1 + r2) / 2;
    let g = (g1 + g2) / 2;
    let b = (b1 + b2) / 2;
    let a = (a1 + a2) / 2;
    r * 0x100_0000 + g * 0x1_0000 + b * 0x100 + a
}

/// The colour of a pixel. In a picture (`is_dither_double`) each nibble of
/// a pixel holds a palette index, and two different ones give the colour
/// half way between them. In a cel the pixel is the index.
pub open spec fn indexed_rgba(index: u8, is_dither_double: bool) -> u32 {
    if is_dither_double {
        if index % 16 == index / 16 {
            palette_rgba(index as int % 16)
        } else {
            interpolated(palette_rgba(index as int % 16), palette_rgba(index as int / 16))
        }
    } else {
        palette_rgba(index as int)
    }
}

/// Computes [`indexed_rgba`]. A cel's pixel must be a palette index.
pub fn rgba_from_indexed_colour(index: u8, is_dither_double: bool) -> (rgba: u32)
    requires
        is_dither_double || index < PALETTE_SIZE,
    ensures
        rgba == indexed_rgba(index, is_dither_double),
{
    if is_dither_double {
        let index_a = index & 0xf;
        let index_b = index >> 4;
        assert(index_a == index % 16 && index_b == index / 16) by (bit_vector)
            requires
                index_a == index & 0xf,
                index_b == index >> 4,
        ;
        if index_a == index_b {
            // No dithering.
            rgba_of(index_a)
        } else {
            // The average of the two.
            let a = rgba_of(index_a);
            let b = rgba_of(index_b);
            interpolate_rgba(a, b)
        }
    } else {
        rgba_of(index)
    }
}

/// `line` laid end to end `n` times.
pub open spec fn repeated(line: Seq<u32>, n: nat) -> Seq<u32>
    decreases n,
{
    if n == 0 {
        Seq::empty()
    } else {
        repeated(line, (n - 1) as nat) + line
    }
}

/// `count` transparent pixels.
pub open spec fn transparent_run(count: nat) -> Seq<u8> {
    Seq::new(count, |i: int| TRANSPARENT)
}

/// The first `rows` rows of `width` pixels, each with `extra` transparent
/// pixels behind it.
pub open spec fn padded_rows(pixels: Seq<u8>, width: nat, extra: nat, rows: nat) -> Seq<u8>
    decreases rows,
{
    if rows == 0 {
        Seq::empty()
    } else {
        padded_rows(pixels, width, extra, (rows - 1) as nat) + pixels.subrange(
            (rows - 1) * width,
            (rows * width) as int,
        ) + transparent_run(extra)
    }
}

/// A cel grown to `width` by `height`: transparent rows are put above it
/// and transparent pixels to the right of each row. A cel of that size
/// stays as it is.
pub open spec fn padded(cel: CelModel, width: nat, height: nat) -> CelModel {
    if cel.width == width && cel.height == height {
        cel
    } else {
        CelModel {
            width,
            height,
            pixels: transparent_run(((height - cel.height) * width) as nat) + padded_rows(
                cel.pixels,
                cel.width,
                (width - cel.width) as nat,
                cel.pixels.len() / cel.width,
            ),
        }
    }
}

/// Appends `line` to `out`.
fn append<T: Copy>(out: &mut Vec<T>, line: &[T])
    ensures
        final(out)@ == old(out)@ + line@,
{
    let mut i: usize = 0;
    while i < line.len()
        invariant
            i <= line@.len(),
            out@ == old(out)@ + line@.subrange(0, i as int),
        decreases line@.len() - i,
    {
        out.push(line[i]);
        i += 1;
        assert(out@ =~= old(out)@ + line@.subrange(0, i as int));
    }
    assert(line@.subrange(0, i as int) =~= line@);
}

/// Appends `count` transparent pixels to `out`.
fn append_transparent(out: &mut Vec<u8>, count: usize)
    ensures
        final(out)@ == old(out)@ + transparent_run(count as nat),
{
    let mut i: usize = 0;
    while i < count
        invariant
            i <= count,
            out@ == old(out)@ + transparent_run(i as nat),
        decreases count - i,
    {
        out.push(TRANSPARENT);
        i += 1;
        assert(out@ =~= old(out)@ + transparent_run(i as nat));
    }
}

/// Grows a cel to `width` by `height`, which must not be smaller than the
/// cel. A cel that has to grow must have a width.
pub fn pad_cel(cel: &Cel, width: usize, height: usize) -> (larger: Cel)
    requires
        cel.width <= width,
        cel.height <= height,
        cel.width > 0 || (cel.width == width && cel.height == height),
        (height - cel.height) * width <= usize::MAX,
    ensures
        larger.model() == padded(cel.model(), width as nat, height as nat),
{
    if cel.width == width && cel.height == height {
        return Cel { width, height, pixels: vstd::slice::slice_to_vec(cel.pixels.as_slice()) };
    }
    let mut pixels: Vec<u8> = Vec::new();
    // The rows above:
    let extra_height = height - cel.height;
    let extra_pixels_top = extra_height * width;
    append_transparent(&mut pixels, extra_pixels_top);
    // The pixels to the right:
    let extra_width = width - cel.width;
    let rows = cel.pixels.len() / cel.width;
    let ghost top = pixels@;
    assert(rows * cel.width <= cel.pixels@.len()) by (nonlinear_arith)
        requires
            rows == cel.pixels@.len() / cel.width as nat,
            cel.width > 0,
    ;
    let mut row: usize = 0;
    let mut base: usize = 0;
    while row < rows
        invariant
            row <= rows,
            base == row * cel.width,
            rows * cel.width <= cel.pixels@.len(),
            cel.pixels@.len() == cel.pixels.len(),
            extra_width == width - cel.width,
            pixels@ == top + padded_rows(
                cel.pixels@,
                cel.width as nat,
                extra_width as nat,
                row as nat,
            ),
        decreases rows - row,
    {
        assert((row + 1) * cel.width <= rows * cel.width) by (nonlinear_arith)
            requires
                row < rows,
        ;
        assert((row + 1) * cel.width == row * cel.width + cel.width) by (nonlinear_arith);
        let ghost before = pixels@;
        let line = &cel.pixels.as_slice()[base..base + cel.width];
        append(&mut pixels, line);
        append_transparent(&mut pixels, extra_width);
        row += 1;
        base += cel.width;
        assert(pixels@ =~= top + padded_rows(
            cel.pixels@,
            cel.width as nat,
            extra_width as nat,
            row as nat,
        ));
    }
    Cel { width, height, pixels }
}

/// The size that holds every cel of a loop: the largest width and the
/// largest height among the first `n` cels.
pub open spec fn largest_width(cels: Seq<CelModel>, n: nat) -> nat
    decreases n,
{
    if n == 0 {
        0
    } else if cels[n - 1].width > largest_width(cels, (n - 1) as nat) {
        cels[n - 1].width
    } else {
        largest_width(cels, (n - 1) as nat)
    }
}

/// The largest height among the first `n` cels.
pub open spec fn largest_height(cels: Seq<CelModel>, n: nat) -> nat
    decreases n,
{
    if n == 0 {
        0
    } else if cels[n - 1].height > largest_height(cels, (n - 1) as nat) {
        cels[n - 1].height
    } else {
        largest_height(cels, (n - 1) as nat)
    }
}

/// The size of the frames of a loop: the largest width and the largest
/// height of its cels.
pub fn frame_size(viewloop: &Loop) -> (size: (usize, usize))
    ensures
        size.0 == largest_width(viewloop.model(), viewloop.cels@.len()),
        size.1 == largest_height(viewloop.model(), viewloop.cels@.len()),
{
    let mut width: usize = 0;
    let mut height: usize = 0;
    let mut i: usize = 0;
    while i < viewloop.cels.len()
        invariant
            i <= viewloop.cels@.len(),
            width == largest_width(viewloop.model(), i as nat),
            height == largest_height(viewloop.model(), i as nat),
        decreases viewloop.cels@.len() - i,
    {
        let cel = &viewloop.cels[i];
        assert(viewloop.model()[i as int] == cel.model());
        if cel.width > width {
            width = cel.width;
        }
        if cel.height > height {
            height = cel.height;
        }
        i += 1;
    }
    (width, height)
}

/// No cel among the first `n` is wider than the largest width or higher
/// than the largest height.
pub proof fn lemma_largest_bounds(cels: Seq<CelModel>, n: nat, i: int)
    requires
        0 <= i < n,
    ensures
        cels[i].width <= largest_width(cels, n),
        cels[i].height <= largest_height(cels, n),
    decreases n,
{
    if i < n - 1 {
        lemma_largest_bounds(cels, (n - 1) as nat, i);
    }
}

/// Whether the cels of a loop can be brought to one size: each has a width,
/// and a frame of the largest width and height fits into memory.
pub open spec fn can_be_framed(cels: Seq<CelModel>) -> bool {
    &&& forall|i: int| 0 <= i < cels.len() ==> (#[trigger] cels[i]).width > 0
    &&& largest_width(cels, cels.len()) * largest_height(cels, cels.len()) <= usize::MAX
}

/// The frames of an animation: every cel of the loop, grown to the size of
/// the largest.
pub fn padded_frames(viewloop: &Loop) -> (frames: Vec<Cel>)
    requires
        can_be_framed(viewloop.model()),
    ensures
        frames@.len() == viewloop.cels@.len(),
        forall|i: int|
            0 <= i < frames@.len() ==> (#[trigger] frames@[i]).model() == padded(
                viewloop.cels@[i].model(),
                largest_width(viewloop.model(), viewloop.cels@.len()),
                largest_height(viewloop.model(), viewloop.cels@.len()),
            ),
{
    let (width, height) = frame_size(viewloop);
    let mut frames: Vec<Cel> = Vec::new();
    let mut i: usize = 0;
    while i < viewloop.cels.len()
        invariant
            i <= viewloop.cels@.len(),
            can_be_framed(viewloop.model()),
            width == largest_width(viewloop.model(), viewloop.cels@.len()),
            height == largest_height(viewloop.model(), viewloop.cels@.len()),
            frames@.len() == i,
            forall|k: int|
                0 <= k < frames@.len() ==> (#[trigger] frames@[k]).model() == padded(
                    viewloop.cels@[k].model(),
                    width as nat,
                    height as nat,
                ),
        decreases viewloop.cels@.len() - i,
    {
        let cel = &viewloop.cels[i];
        proof {
            assert(viewloop.model()[i as int] == cel.model());
            lemma_largest_bounds(viewloop.model(), viewloop.cels@.len(), i as int);
            assert((height - cel.height) * width <= width * height) by (nonlinear_arith)
                requires
                    cel.height <= height,
            ;
        }
        frames.push(pad_cel(cel, width, height));
        i += 1;
    }
    frames
}

/// The colours of the pixels `from` up to `to`, each `times` times.
pub open spec fn widened(
    pixels: Seq<u8>,
    from: int,
    to: int,
    times: nat,
    is_dither_double: bool,
) -> Seq<u32>
    decreases to - from,
{
    if to <= from {
        Seq::empty()
    } else {
        widened(pixels, from, to - 1, times, is_dither_double) + Seq::new(
            times,
            |i: int| indexed_rgba(pixels[to - 1], is_dither_double),
        )
    }
}

/// The first `rows` rows of `width` pixels, each pixel five times and each
/// row six times.
pub open spec fn nearest_rows(pixels: Seq<u8>, width: nat, rows: nat, is_dither_double: bool) -> Seq<
    u32,
>
    decreases rows,
{
    if rows == 0 {
        Seq::empty()
    } else {
        nearest_rows(pixels, width, (rows - 1) as nat, is_dither_double) + repeated(
            widened(pixels, (rows - 1) * width, (rows * width) as int, 5, is_dither_double),
            6,
        )
    }
}

/// Whether every pixel can be coloured: in a cel, every pixel must be a
/// palette index.
pub open spec fn colourable(pixels: Seq<u8>, is_dither_double: bool) -> bool {
    is_dither_double || forall|i: int| 0 <= i < pixels.len() ==> #[trigger] pixels[i] < PALETTE_SIZE
}

/// Scales a cel to five times its width and six times its height by
/// repeating pixels. The rows are the whole rows of `cel.width` pixels that
/// `cel.pixels` holds.
pub fn scaled_rgbas_from_cel_nearest_neighbour(cel: &Cel, is_dither_double: bool) -> (rgbas: Vec<
    u32,
>)
    requires
        cel.width > 0,
        colourable(cel.pixels@, is_dither_double),
    ensures
        rgbas@ == nearest_rows(
            cel.pixels@,
            cel.width as nat,
            cel.pixels@.len() / cel.width as nat,
            is_dither_double,
        ),
{
    let mut rgbas: Vec<u32> = Vec::new();
    let mut line: Vec<u32> = Vec::new();
    let rows = cel.pixels.len() / cel.width;
    assert(rows * cel.width <= cel.pixels@.len()) by (nonlinear_arith)
        requires
            rows == cel.pixels@.len() / cel.width as nat,
            cel.width > 0,
    ;
    let mut row: usize = 0;
    let mut base: usize = 0;
    while row < rows
        invariant
            row <= rows,
            base == row * cel.width,
            rows * cel.width <= cel.pixels@.len(),
            cel.pixels@.len() == cel.pixels.len(),
            colourable(cel.pixels@, is_dither_double),
            rgbas@ == nearest_rows(cel.pixels@, cel.width as nat, row as nat, is_dither_double),
        decreases rows - row,
    {
        assert((row + 1) * cel.width <= rows * cel.width) by (nonlinear_arith)
            requires
                row < rows,
        ;
        assert((row + 1) * cel.width == row * cel.width + cel.width) by (nonlinear_arith);
        line.clear();
        let mut column: usize = 0;
        while column < cel.width
            invariant
                column <= cel.width,
                base + cel.width <= cel.pixels@.len(),
                cel.pixels@.len() == cel.pixels.len(),
                colourable(cel.pixels@, is_dither_double),
                line@ == widened(cel.pixels@, base as int, base + column, 5, is_dither_double),
            decreases cel.width - column,
        {
            let rgba = rgba_from_indexed_colour(cel.pixels[base + column], is_dither_double);
            let ghost before = line@;
            let mut i: usize = 0;
            while i < WIDTH_MULTIPLIER
                invariant
                    i <= WIDTH_MULTIPLIER,
                    line@ == before + Seq::new(i as nat, |k: int| rgba),
                decreases WIDTH_MULTIPLIER - i,
            {
                line.push(rgba);
                i += 1;
                assert(line@ =~= before + Seq::new(i as nat, |k: int| rgba));
            }
            column += 1;
            assert(Seq::new(5, |k: int| rgba) =~= Seq::new(
                5,
                |k: int| indexed_rgba(cel.pixels@[base + column - 1], is_dither_double),
            ));
        }
        let ghost before = rgbas@;
        let mut i: usize = 0;
        while i < HEIGHT_MULTIPLIER
            invariant
                i <= HEIGHT_MULTIPLIER,
                rgbas@ == before + repeated(line@, i as nat),
            decreases HEIGHT_MULTIPLIER - i,
        {
            append(&mut rgbas, line.as_slice());
            i += 1;
            assert(rgbas@ =~= before + repeated(line@, i as nat));
        }
        row += 1;
        base += cel.width;
    }
    rgbas
}

/// Squeezes rows of six pixels to five: of every six pixels the third and
/// the fourth become one, half way between them. Pixels behind the last
/// whole group are dropped.
pub open spec fn squeezed(scaled: Seq<u32>, groups: nat) -> Seq<u32>
    decreases groups,
{
    if groups == 0 {
        Seq::empty()
    } else {
        let at = 6 * (groups - 1);
        squeezed(scaled, (groups - 1) as nat) + seq![
            scaled[at],
            scaled[at + 1],
            interpolated(scaled[at + 2], scaled[at + 3]),
            scaled[at + 4],
            scaled[at + 5],
        ]
    }
}

/// Brings pixels that were scaled six times in both directions to five
/// times the width.
pub fn squeeze_six_to_five(scaled_square: &[u32]) -> (scaled_aspect: Vec<u32>)
    ensures
        scaled_aspect@ == squeezed(scaled_square@, scaled_square@.len() / 6),
{
    let groups = scaled_square.len() / 6;
    let mut scaled_aspect: Vec<u32> = Vec::new();
    let mut group: usize = 0;
    while group < groups
        invariant
            group <= groups,
            groups == scaled_square@.len() / 6,
            scaled_square@.len() == scaled_square.len(),
            scaled_aspect@ == squeezed(scaled_square@, group as nat),
        decreases groups - group,
    {
        let at = 6 * group;
        let ghost before = scaled_aspect@;
        scaled_aspect.push(scaled_square[at]);
        scaled_aspect.push(scaled_square[at + 1]);
        scaled_aspect.push(interpolate_rgba(scaled_square[at + 2], scaled_square[at + 3]));
        scaled_aspect.push(scaled_square[at + 4]);
        scaled_aspect.push(scaled_square[at + 5]);
        group += 1;
        assert(scaled_aspect@ =~= before + seq![
            scaled_square@[at as int],
            scaled_square@[at + 1],
            interpolated(scaled_square@[at + 2], scaled_square@[at + 3]),
            scaled_square@[at + 4],
            scaled_square@[at + 5],
        ]);
    }
    scaled_aspect
}

/// The red of a colour, with its alpha.
pub open spec fn red_part(rgba: u32) -> u32 {
    rgba & 0xff0000ff
}

/// The green of a colour, with its alpha.
pub open spec fn green_part(rgba: u32) -> u32 {
    rgba & 0xff00ff
}

/// The blue of a colour, with its alpha.
pub open spec fn blue_part(rgba: u32) -> u32 {
    rgba & 0xffff
}

/// The three parts of the colour of pixel `at`, arranged by `order`: each
/// entry picks red (0), green (1) or blue (2).
pub open spec fn phosphors(
    pixels: Seq<u8>,
    at: int,
    order: Seq<int>,
    is_dither_double: bool,
) -> Seq<u32> {
    let rgba = indexed_rgba(pixels[at], is_dither_double);
    Seq::new(
        order.len(),
        |i: int|
            if order[i] == 0 {
                red_part(rgba)
            } else if order[i] == 1 {
                green_part(rgba)
            } else {
                blue_part(rgba)
            },
    )
}

/// The pixels `from` up to `to` as a line of phosphors.
pub open spec fn phosphor_line(
    pixels: Seq<u8>,
    from: int,
    to: int,
    order: Seq<int>,
    is_dither_double: bool,
) -> Seq<u32>
    decreases to - from,
{
    if to <= from {
        Seq::empty()
    } else {
        phosphor_line(pixels, from, to - 1, order, is_dither_double) + phosphors(
            pixels,
            to - 1,
            order,
            is_dither_double,
        )
    }
}

/// The phosphors of a pixel in a line that starts red: two red, two green,
/// two blue.
pub open spec fn order_rgb_6() -> Seq<int> {
    seq![0, 0, 1, 1, 2, 2]
}

/// The phosphors of a pixel in a line that is shifted by half a triple.
pub open spec fn order_gbr_6() -> Seq<int> {
    seq![1, 2, 2, 0, 0, 1]
}

/// The first `rows` rows of `width` pixels as a screen of phosphors, six by
/// six a pixel:
///
/// ```text
/// rrggbb
/// rrggbb
/// gbbrrg
/// gbbrrg
/// rrggbb
/// rrggbb
/// ```
///
/// for the odd rows, and with the two kinds of line exchanged for the even
/// ones.
pub open spec fn crt_6_rows(pixels: Seq<u8>, width: nat, rows: nat, is_dither_double: bool) -> Seq<
    u32,
>
    decreases rows,
{
    if rows == 0 {
        Seq::empty()
    } else {
        let from = (rows - 1) * width;
        let to = (rows * width) as int;
        let rgb = phosphor_line(pixels, from, to, order_rgb_6(), is_dither_double);
        let gbr = phosphor_line(pixels, from, to, order_gbr_6(), is_dither_double);
        crt_6_rows(pixels, width, (rows - 1) as nat, is_dither_double) + (if (rows - 1) % 2 == 1 {
            rgb + rgb + gbr + gbr + rgb + rgb
        } else {
            gbr + gbr + rgb + rgb + gbr + gbr
        })
    }
}

/// The first `rows` rows of `width` pixels as a screen of phosphors, three
/// by three a pixel:
///
/// ```text
/// rgb
/// brg
/// gbr
/// ```
pub open spec fn crt_3_rows(pixels: Seq<u8>, width: nat, rows: nat, is_dither_double: bool) -> Seq<
    u32,
>
    decreases rows,
{
    if rows == 0 {
        Seq::empty()
    } else {
        let from = (rows - 1) * width;
        let to = (rows * width) as int;
        crt_3_rows(pixels, width, (rows - 1) as nat, is_dither_double) + phosphor_line(
            pixels,
            from,
            to,
            seq![0, 1, 2],
            is_dither_double,
        ) + phosphor_line(pixels, from, to, seq![2, 0, 1], is_dither_double) + phosphor_line(
            pixels,
            from,
            to,
            seq![1, 2, 0],
            is_dither_double,
        )
    }
}

/// Appends the phosphors of one pixel to a line.
fn push_phosphors(line: &mut Vec<u32>, first: u32, second: u32, third: u32)
    ensures
        final(line)@ == old(line)@ + seq![first, second, third],
{
    line.push(first);
    line.push(second);
    line.push(third);
    assert(line@ =~= old(line)@ + seq![first, second, third]);
}

/// Scales a cel six times in both directions, as a screen of phosphors.
pub fn scaled_rgbas_from_cel_crt_6(cel: &Cel, is_dither_double: bool) -> (rgbas: Vec<u32>)
    requires
        cel.width > 0,
        colourable(cel.pixels@, is_dither_double),
    ensures
        rgbas@ == crt_6_rows(
            cel.pixels@,
            cel.width as nat,
            cel.pixels@.len() / cel.width as nat,
            is_dither_double,
        ),
{
    let mut rgbas: Vec<u32> = Vec::new();
    let mut line_rgb: Vec<u32> = Vec::new();
    let mut line_gbr: Vec<u32> = Vec::new();
    let rows = cel.pixels.len() / cel.width;
    assert(rows * cel.width <= cel.pixels@.len()) by (nonlinear_arith)
        requires
            rows == cel.pixels@.len() / cel.width as nat,
            cel.width > 0,
    ;
    let mut row: usize = 0;
    let mut base: usize = 0;
    while row < rows
        invariant
            row <= rows,
            base == row * cel.width,
            rows * cel.width <= cel.pixels@.len(),
            cel.pixels@.len() == cel.pixels.len(),
            colourable(cel.pixels@, is_dither_double),
            rgbas@ == crt_6_rows(cel.pixels@, cel.width as nat, row as nat, is_dither_double),
        decreases rows - row,
    {
        assert((row + 1) * cel.width <= rows * cel.width) by (nonlinear_arith)
            requires
                row < rows,
        ;
        assert((row + 1) * cel.width == row * cel.width + cel.width) by (nonlinear_arith);
        line_rgb.clear();
        line_gbr.clear();
        let mut column: usize = 0;
        while column < cel.width
            invariant
                column <= cel.width,
                base + cel.width <= cel.pixels@.len(),
                cel.pixels@.len() == cel.pixels.len(),
                colourable(cel.pixels@, is_dither_double),
                line_rgb@ == phosphor_line(
                    cel.pixels@,
                    base as int,
                    base + column,
                    order_rgb_6(),
                    is_dither_double,
                ),
                line_gbr@ == phosphor_line(
                    cel.pixels@,
                    base as int,
                    base + column,
                    order_gbr_6(),
                    is_dither_double,
                ),
            decreases cel.width - column,
        {
            let rgba = rgba_from_indexed_colour(cel.pixels[base + column], is_dither_double);
            let r = rgba & 0xff0000ff;
            let g = rgba & 0xff00ff;
            let b = rgba & 0xffff;
            let ghost rgb_before = line_rgb@;
            let ghost gbr_before = line_gbr@;
            push_phosphors(&mut line_rgb, r, r, g);
            push_phosphors(&mut line_rgb, g, b, b);
            push_phosphors(&mut line_gbr, g, b, b);
            push_phosphors(&mut line_gbr, r, r, g);
            assert(line_rgb@ =~= rgb_before + phosphors(
                cel.pixels@,
                base + column,
                order_rgb_6(),
                is_dither_double,
            ));
            assert(line_gbr@ =~= gbr_before + phosphors(
                cel.pixels@,
                base + column,
                order_gbr_6(),
                is_dither_double,
            ));
            column += 1;
        }
        let is_odd = row % 2 == 1;
        let ghost before = rgbas@;
        if is_odd {
            append(&mut rgbas, line_rgb.as_slice());
            append(&mut rgbas, line_rgb.as_slice());
            append(&mut rgbas, line_gbr.as_slice());
            append(&mut rgbas, line_gbr.as_slice());
            append(&mut rgbas, line_rgb.as_slice());
            append(&mut rgbas, line_rgb.as_slice());
            assert(rgbas@ =~= before + (line_rgb@ + line_rgb@ + line_gbr@ + line_gbr@ + line_rgb@
                + line_rgb@));
        } else {
            append(&mut rgbas, line_gbr.as_slice());
            append(&mut rgbas, line_gbr.as_slice());
            append(&mut rgbas, line_rgb.as_slice());
            append(&mut rgbas, line_rgb.as_slice());
            append(&mut rgbas, line_gbr.as_slice());
            append(&mut rgbas, line_gbr.as_slice());
            assert(rgbas@ =~= before + (line_gbr@ + line_gbr@ + line_rgb@ + line_rgb@ + line_gbr@
                + line_gbr@));
        }
        row += 1;
        base += cel.width;
    }
    rgbas
}

/// Scales a cel three times in both directions, as a screen of phosphors.
pub fn scaled_rgbas_from_cel_crt_3(cel: &Cel, is_dither_double: bool) -> (rgbas: Vec<u32>)
    requires
        cel.width > 0,
        colourable(cel.pixels@, is_dither_double),
    ensures
        rgbas@ == crt_3_rows(
            cel.pixels@,
            cel.width as nat,
            cel.pixels@.len() / cel.width as nat,
            is_dither_double,
        ),
{
    let mut rgbas: Vec<u32> = Vec::new();
    let mut line_rgb: Vec<u32> = Vec::new();
    let mut line_brg: Vec<u32> = Vec::new();
    let mut line_gbr: Vec<u32> = Vec::new();
    let rows = cel.pixels.len() / cel.width;
    assert(rows * cel.width <= cel.pixels@.len()) by (nonlinear_arith)
        requires
            rows == cel.pixels@.len() / cel.width as nat,
            cel.width > 0,
    ;
    let mut row: usize = 0;
    let mut base: usize = 0;
    while row < rows
        invariant
            row <= rows,
            base == row * cel.width,
            rows * cel.width <= cel.pixels@.len(),
            cel.pixels@.len() == cel.pixels.len(),
            colourable(cel.pixels@, is_dither_double),
            rgbas@ == crt_3_rows(cel.pixels@, cel.width as nat, row as nat, is_dither_double),
        decreases rows - row,
    {
        assert((row + 1) * cel.width <= rows * cel.width) by (nonlinear_arith)
            requires
                row < rows,
        ;
        assert((row + 1) * cel.width == row * cel.width + cel.width) by (nonlinear_arith);
        line_rgb.clear();
        line_brg.clear();
        line_gbr.clear();
        let mut column: usize = 0;
        while column < cel.width
            invariant
                column <= cel.width,
                base + cel.width <= cel.pixels@.len(),
                cel.pixels@.len() == cel.pixels.len(),
                colourable(cel.pixels@, is_dither_double),
                line_rgb@ == phosphor_line(
                    cel.pixels@,
                    base as int,
                    base + column,
                    seq![0, 1, 2],
                    is_dither_double,
                ),
                line_brg@ == phosphor_line(
                    cel.pixels@,
                    base as int,
                    base + column,
                    seq![2, 0, 1],
                    is_dither_double,
                ),
                line_gbr@ == phosphor_line(
                    cel.pixels@,
                    base as int,
                    base + column,
                    seq![1, 2, 0],
                    is_dither_double,
                ),
            decreases cel.width - column,
        {
            let rgba = rgba_from_indexed_colour(cel.pixels[base + column], is_dither_double);
            let r = rgba & 0xff0000ff;
            let g = rgba & 0xff00ff;
            let b = rgba & 0xffff;
            let ghost rgb_before = line_rgb@;
            let ghost brg_before = line_brg@;
            let ghost gbr_before = line_gbr@;
            push_phosphors(&mut line_rgb, r, g, b);
            push_phosphors(&mut line_brg, b, r, g);
            push_phosphors(&mut line_gbr, g, b, r);
            assert(line_rgb@ =~= rgb_before + phosphors(
                cel.pixels@,
                base + column,
                seq![0, 1, 2],
                is_dither_double,
            ));
            assert(line_brg@ =~= brg_before + phosphors(
                cel.pixels@,
                base + column,
                seq![2, 0, 1],
                is_dither_double,
            ));
            assert(line_gbr@ =~= gbr_before + phosphors(
                cel.pixels@,
                base + column,
                seq![1, 2, 0],
                is_dither_double,
            ));
            column += 1;
        }
        let ghost before = rgbas@;
        append(&mut rgbas, line_rgb.as_slice());
        append(&mut rgbas, line_brg.as_slice());
        append(&mut rgbas, line_gbr.as_slice());
        row += 1;
        base += cel.width;
    }
    rgbas
}

} // verus!
