//! Draws a picture from its vector instructions.
//!
//! A picture resource is a run of opcodes that set colours and brushes,
//! draw lines, stamp brushes and fill areas on a canvas of 320 by 190
//! pixels, which starts out white.

use vstd::prelude::*;
use vstd::arithmetic::power2::*;
use vstd::bits::*;
use crate::line::{line_canvas, draw_sierra_line};
use crate::flood::{fill_canvas, fill_from};
use crate::palette::{WHITE, PALETTE_SIZE};
use crate::picture_splitter::{Action, ActionArguments, Token, tokens_of, split, split_tokens};
use crate::error::DecodeError;
pub use crate::canvas::{WIDTH, HEIGHT};
use crate::canvas::{
    PIXELS,
    pixel_index,
    column_of,
    row_of,
    paint,
    lemma_pixel_index,
    lemma_pixel_point,
};

verus! {

/// The texture that dithered brushes are cut from. It is read bit by bit,
/// each byte from its high bit down, and from the start again once the end
/// is reached.
pub const TEXTURE: [u8; 32] = [
    0x20, 0x94, 0x02, 0x24, 0x90, 0x82, 0xa4, 0xa2,
    0x82, 0x09, 0x0a, 0x22, 0x12, 0x10, 0x42, 0x14,
    0x91, 0x4a, 0x91, 0x11, 0x08, 0x12, 0x25, 0x10,
    0x22, 0xa8, 0x14, 0x24, 0x00, 0x50, 0x24, 0x04,
];

/// For each pattern number, the texture byte at which its bits start.
pub const PATTERNS: [u8; 120] = [
    0x00, 0x18, 0x30, 0xc4, 0xdc, 0x65, 0xeb, 0x48,
    0x60, 0xbd, 0x89, 0x04, 0x0a, 0xf4, 0x7d, 0x6d,
    0x85, 0xb0, 0x8e, 0x95, 0x1f, 0x22, 0x0d, 0xdf,
    0x2a, 0x78, 0xd5, 0x73, 0x1c, 0xb4, 0x40, 0xa1,
    0xb9, 0x3c, 0xca, 0x58, 0x92, 0x34, 0xcc, 0xce,
    0xd7, 0x42, 0x90, 0x0f, 0x8b, 0x7f, 0x32, 0xed,
    0x5c, 0x9d, 0xc8, 0x99, 0xad, 0x4e, 0x56, 0xa6,
    0xf7, 0x68, 0xb7, 0x25, 0x82, 0x37, 0x3a, 0x51,
    0x69, 0x26, 0x38, 0x52, 0x9e, 0x9a, 0x4f, 0xa7,
    0x43, 0x10, 0x80, 0xee, 0x3d, 0x59, 0x35, 0xcf,
    0x79, 0x74, 0xb5, 0xa2, 0xb1, 0x96, 0x23, 0xe0,
    0xbe, 0x05, 0xf5, 0x6e, 0x19, 0xc5, 0x66, 0x49,
    0xf0, 0xd1, 0x54, 0xa9, 0x70, 0x4b, 0xa4, 0xe2,
    0xe6, 0xe5, 0xab, 0xe4, 0xd2, 0xaa, 0x4c, 0xe3,
    0x06, 0x6f, 0xc6, 0x4a, 0x75, 0xa3, 0x97, 0xe1,
];

/// The circular brushes, one table per size and one mask per row. The
/// leftmost pixel of a row is the highest of its `2 * size + 1` bits.
pub const CIRCLE_0: [u16; 1] = [0b1];

pub const CIRCLE_1: [u16; 3] = [0b111, 0b111, 0b111];

pub const CIRCLE_2: [u16; 5] = [0b01110, 0b11111, 0b11111, 0b11111, 0b01110];

pub const CIRCLE_3: [u16; 7] = [
    0b0011100,
    0b0111110,
    0b1111111,
    0b1111111,
    0b1111111,
    0b0111110,
    0b0011100,
];

pub const CIRCLE_4: [u16; 9] = [
    0b001111100,
    0b011111110,
    0b111111111,
    0b111111111,
    0b111111111,
    0b111111111,
    0b111111111,
    0b011111110,
    0b001111100,
];

pub const CIRCLE_5: [u16; 11] = [
    0b00001110000,
    0b01111111110,
    0b11111111111,
    0b11111111111,
    0b11111111111,
    0b11111111111,
    0b11111111111,
    0b11111111111,
    0b11111111111,
    0b01111111110,
    0b00001110000,
];

pub const CIRCLE_6: [u16; 13] = [
    0b0000111110000,
    0b0111111111110,
    0b1111111111111,
    0b1111111111111,
    0b1111111111111,
    0b1111111111111,
    0b1111111111111,
    0b1111111111111,
    0b1111111111111,
    0b1111111111111,
    0b1111111111111,
    0b0111111111110,
    0b0000111110000,
];

pub const CIRCLE_7: [u16; 15] = [
    0b000001111100000,
    0b001111111111100,
    0b011111111111110,
    0b111111111111111,
    0b111111111111111,
    0b111111111111111,
    0b111111111111111,
    0b111111111111111,
    0b111111111111111,
    0b111111111111111,
    0b111111111111111,
    0b111111111111111,
    0b011111111111110,
    0b001111111111100,
    0b000001111100000,
];

/// No coordinate that the drawing code meets is larger than this.
pub const COORDINATE_LIMIT: i128 = 0x1_0000_0000_0000_0000_0000_0000;

/// Whether bit `bit` of `value` is set.
pub open spec fn bit_is_set(value: nat, bit: nat) -> bool {
    (value / pow2(bit)) % 2 == 1
}

/// Bit `position` of an endless stream that runs through `data` again and
/// again, each byte from its high bit down.
pub open spec fn looping_bit(data: Seq<u8>, position: int) -> bool {
    bit_is_set(data[(position / 8) % (data.len() as int)] as nat, (7 - position % 8) as nat)
}

/// A cursor over the bits of a byte slice, high bit first, that starts over
/// when it reaches the end.
pub struct LoopingPatternBitStream<'a> {
    data: &'a [u8],
    index: usize,
    bit: usize,
}

impl<'a> LoopingPatternBitStream<'a> {
    /// The bytes that the cursor runs through.
    pub closed spec fn bytes(&self) -> Seq<u8> {
        self.data@
    }

    /// How many bits lie before the cursor, counted from the first byte
    /// without starting over.
    pub closed spec fn position(&self) -> int {
        8 * self.index + (7 - self.bit)
    }

    /// The bit counter is one of 7 down to 0.
    pub closed spec fn wf(&self) -> bool {
        self.bit <= 7
    }

    /// A cursor at the high bit of byte `index`.
    pub fn new(data: &'a [u8], index: usize) -> (stream: Self)
        ensures
            stream.wf(),
            stream.bytes() == data@,
            stream.position() == 8 * index,
    {
        Self { data, index, bit: 7 }
    }

    /// Takes the next bit.
    pub fn next(&mut self) -> (is_set: bool)
        requires
            old(self).wf(),
            old(self).bytes().len() > 0,
            old(self).position() < 8 * usize::MAX + 7,
        ensures
            final(self).wf(),
            final(self).bytes() == old(self).bytes(),
            final(self).position() == old(self).position() + 1,
            is_set == looping_bit(old(self).bytes(), old(self).position()),
    {
        let byte = self.data[self.index % self.data.len()];
        let shift = self.bit as u8;
        let shifted = byte >> shift;
        proof {
            lemma_u8_shr_is_div(byte, shift);
            assert((shifted & 1 != 0) == (shifted % 2 == 1)) by (bit_vector);
            assert(self.position() / 8 == self.index);
            assert(self.position() % 8 == 7 - self.bit);
        }
        let is_set = (shifted & 1) != 0;
        if self.bit == 0 {
            self.bit = 7;
            self.index += 1;
        } else {
            self.bit -= 1;
        }
        is_set
    }
}

/// The mask of row `row` of the circular brush of size `size`.
pub open spec fn circle_mask(size: int, row: int) -> u16 {
    if size == 0 {
        CIRCLE_0[row]
    } else if size == 1 {
        CIRCLE_1[row]
    } else if size == 2 {
        CIRCLE_2[row]
    } else if size == 3 {
        CIRCLE_3[row]
    } else if size == 4 {
        CIRCLE_4[row]
    } else if size == 5 {
        CIRCLE_5[row]
    } else if size == 6 {
        CIRCLE_6[row]
    } else {
        CIRCLE_7[row]
    }
}

/// Whether the circular brush of size `size` holds the cell in column `xi`
/// of row `yi`.
pub open spec fn circle_covers(size: int, xi: int, yi: int) -> bool {
    bit_is_set(circle_mask(size, yi) as nat, (2 * size - xi) as nat)
}

/// Whether a brush stamped at `(x, y)` colours the point `(px, py)`. The
/// brush is a square of `2 * size + 1` pixels a side around `(x, y)`. Its
/// cells are numbered row by row; with a texture, cell `k` is coloured only
/// where bit `k` of the texture, counted from the pattern's starting byte,
/// is set. A circular brush colours only the cells of its mask.
pub open spec fn brush_covers(
    x: int,
    y: int,
    pattern_number: int,
    size: int,
    is_pattern: bool,
    is_rectangle: bool,
    px: int,
    py: int,
) -> bool {
    let side = 2 * size + 1;
    let xi = px - (x - size);
    let yi = py - (y - size);
    &&& 0 <= xi < side
    &&& 0 <= yi < side
    &&& (is_pattern ==> looping_bit(
        TEXTURE@,
        8 * (PATTERNS[pattern_number % 120] as int) + yi * side + xi,
    ))
    &&& (is_rectangle || circle_covers(size, xi, yi))
}

/// The pixels of the canvas that a stamp colours.
pub open spec fn brush_pixels(
    x: int,
    y: int,
    pattern_number: int,
    size: int,
    is_pattern: bool,
    is_rectangle: bool,
) -> Set<int> {
    Set::new(
        |i: int|
            0 <= i < PIXELS && brush_covers(
                x,
                y,
                pattern_number,
                size,
                is_pattern,
                is_rectangle,
                column_of(i),
                row_of(i),
            ),
    )
}

/// The canvas after a brush is stamped at `(x, y)`.
pub open spec fn pattern_canvas(
    canvas: Seq<u8>,
    colour: u8,
    x: int,
    y: int,
    pattern_number: int,
    size: int,
    is_pattern: bool,
    is_rectangle: bool,
) -> Seq<u8> {
    paint(canvas, brush_pixels(x, y, pattern_number, size, is_pattern, is_rectangle), colour)
}

/// Looks up [`circle_mask`].
fn circle_row(size: usize, row: usize) -> (mask: u16)
    requires
        size <= 7,
        row <= 2 * size,
    ensures
        mask == circle_mask(size as int, row as int),
{
    match size {
        0 => CIRCLE_0[row],
        1 => CIRCLE_1[row],
        2 => CIRCLE_2[row],
        3 => CIRCLE_3[row],
        4 => CIRCLE_4[row],
        5 => CIRCLE_5[row],
        6 => CIRCLE_6[row],
        _ => CIRCLE_7[row],
    }
}

/// Whether the cell of a circular brush belongs to the circle.
fn is_part_of_circle(size: usize, xi: usize, yi: usize) -> (inside: bool)
    requires
        size <= 7,
        xi <= 2 * size,
        yi <= 2 * size,
    ensures
        inside == circle_covers(size as int, xi as int, yi as int),
{
    let mask = circle_row(size, yi);
    let shift = (2 * size - xi) as u16;
    let shifted = mask >> shift;
    proof {
        lemma_u16_shr_is_div(mask, shift);
        assert((shifted & 1 != 0) == (shifted % 2 == 1)) by (bit_vector);
    }
    (shifted & 1) != 0
}

/// Cells of a brush are numbered without gaps or repeats.
proof fn lemma_cell_number(side: int, xi: int, yi: int, xj: int, yj: int)
    requires
        0 <= xi < side,
        0 <= xj < side,
        yi * side + xi == yj * side + xj,
    ensures
        xi == xj,
        yi == yj,
{
    assert(yi == yj) by (nonlinear_arith)
        requires
            0 <= xi < side,
            0 <= xj < side,
            yi * side + xi == yj * side + xj,
    ;
}

/// Stamps a brush at `(x, y)`: a square of `2 * pattern_size + 1` pixels a
/// side, cut to a circle unless `is_rectangle`, and thinned by the texture
/// of `pattern_number` if `is_pattern`.
pub fn draw_pattern(
    picture: &mut Vec<u8>,
    colour: u8,
    x: i128,
    y: i128,
    pattern_number: usize,
    pattern_size: usize,
    is_pattern: bool,
    is_rectangle: bool,
)
    requires
        old(picture)@.len() == PIXELS,
        pattern_size <= 7,
        -COORDINATE_LIMIT <= x <= COORDINATE_LIMIT,
        -COORDINATE_LIMIT <= y <= COORDINATE_LIMIT,
    ensures
        final(picture)@ == pattern_canvas(
            old(picture)@,
            colour,
            x as int,
            y as int,
            pattern_number as int,
            pattern_size as int,
            is_pattern,
            is_rectangle,
        ),
{
    let ghost before = picture@;
    let texture_index = PATTERNS[pattern_number % 120] as usize;
    let mut texture_bits = LoopingPatternBitStream::new(TEXTURE.as_slice(), texture_index);
    let pixel_size: usize = pattern_size * 2 + 1;
    let start_x: i128 = x - (pattern_size as i128);
    let start_y: i128 = y - (pattern_size as i128);
    let mut yi: usize = 0;
    while yi < pixel_size
        invariant
            picture@.len() == PIXELS,
            before.len() == PIXELS,
            pattern_size <= 7,
            pixel_size == 2 * pattern_size + 1,
            start_x == x - pattern_size,
            start_y == y - pattern_size,
            -COORDINATE_LIMIT <= x <= COORDINATE_LIMIT,
            -COORDINATE_LIMIT <= y <= COORDINATE_LIMIT,
            texture_index == PATTERNS[(pattern_number % 120) as int],
            yi <= pixel_size,
            texture_bits.wf(),
            texture_bits.bytes() == TEXTURE@,
            is_pattern ==> texture_bits.position() == 8 * texture_index + yi * pixel_size,
            forall|i: int|
                0 <= i < PIXELS ==> picture@[i] == (if brush_covers(
                    x as int,
                    y as int,
                    pattern_number as int,
                    pattern_size as int,
                    is_pattern,
                    is_rectangle,
                    column_of(i),
                    row_of(i),
                ) && (row_of(i) - start_y) * pixel_size + (column_of(i) - start_x) < yi
                    * pixel_size {
                    colour
                } else {
                    before[i]
                }),
        decreases pixel_size - yi,
    {
        let py: i128 = start_y + (yi as i128);
        let mut xi: usize = 0;
        while xi < pixel_size
            invariant
                picture@.len() == PIXELS,
                before.len() == PIXELS,
                pattern_size <= 7,
                pixel_size == 2 * pattern_size + 1,
                start_x == x - pattern_size,
                start_y == y - pattern_size,
                -COORDINATE_LIMIT <= x <= COORDINATE_LIMIT,
                -COORDINATE_LIMIT <= y <= COORDINATE_LIMIT,
                texture_index == PATTERNS[(pattern_number % 120) as int],
                yi < pixel_size,
                xi <= pixel_size,
                py == start_y + yi,
                texture_bits.wf(),
                texture_bits.bytes() == TEXTURE@,
                is_pattern ==> texture_bits.position() == 8 * texture_index + yi * pixel_size + xi,
                forall|i: int|
                    0 <= i < PIXELS ==> picture@[i] == (if brush_covers(
                        x as int,
                        y as int,
                        pattern_number as int,
                        pattern_size as int,
                        is_pattern,
                        is_rectangle,
                        column_of(i),
                        row_of(i),
                    ) && (row_of(i) - start_y) * pixel_size + (column_of(i) - start_x) < yi
                        * pixel_size + xi {
                        colour
                    } else {
                        before[i]
                    }),
            decreases pixel_size - xi,
        {
            let ghost canvas = picture@;
            let ghost k = yi * pixel_size + xi;
            assert(0 <= k < 225) by (nonlinear_arith)
                requires
                    k == yi * pixel_size + xi,
                    yi < pixel_size,
                    xi < pixel_size,
                    pixel_size <= 15,
            ;
            let textured = if is_pattern {
                texture_bits.next()
            } else {
                true
            };
            let px: i128 = start_x + (xi as i128);
            let shaped = textured && (is_rectangle || is_part_of_circle(pattern_size, xi, yi));
            assert(shaped == brush_covers(
                x as int,
                y as int,
                pattern_number as int,
                pattern_size as int,
                is_pattern,
                is_rectangle,
                px as int,
                py as int,
            ));
            if shaped && 0 <= px && px < (WIDTH as i128) && 0 <= py && py < (HEIGHT as i128) {
                let offset = (py as usize) * WIDTH + (px as usize);
                proof {
                    lemma_pixel_index(px as int, py as int);
                }
                picture[offset] = colour;
            }
            proof {
                assert forall|i: int| 0 <= i < PIXELS implies picture@[i] == (if brush_covers(
                    x as int,
                    y as int,
                    pattern_number as int,
                    pattern_size as int,
                    is_pattern,
                    is_rectangle,
                    column_of(i),
                    row_of(i),
                ) && (row_of(i) - start_y) * pixel_size + (column_of(i) - start_x) < k + 1 {
                    colour
                } else {
                    before[i]
                }) by {
                    lemma_pixel_point(i);
                    let xj = column_of(i) - start_x;
                    let yj = row_of(i) - start_y;
                    if 0 <= xj < pixel_size && yj * pixel_size + xj == k {
                        lemma_cell_number(pixel_size as int, xi as int, yi as int, xj, yj);
                        assert(column_of(i) == px && row_of(i) == py);
                        assert(i == pixel_index(px as int, py as int));
                    }
                }
            }
            xi += 1;
        }
        assert((yi + 1) * pixel_size == yi * pixel_size + pixel_size) by (nonlinear_arith);
        yi += 1;
    }
    proof {
        assert forall|i: int| 0 <= i < PIXELS implies picture@[i] == pattern_canvas(
            before,
            colour,
            x as int,
            y as int,
            pattern_number as int,
            pattern_size as int,
            is_pattern,
            is_rectangle,
        )[i] by {
            let xj = column_of(i) - start_x;
            let yj = row_of(i) - start_y;
            if 0 <= xj < pixel_size && 0 <= yj < pixel_size {
                assert(yj * pixel_size + xj < pixel_size * pixel_size) by (nonlinear_arith)
                    requires
                        0 <= xj < pixel_size,
                        0 <= yj < pixel_size,
                ;
            }
        }
        assert(picture@ =~= pattern_canvas(
            before,
            colour,
            x as int,
            y as int,
            pattern_number as int,
            pattern_size as int,
            is_pattern,
            is_rectangle,
        ));
    }
}

/// The point that the three bytes at `at` encode: the high nibble of the
/// first byte stands above the second byte to give x, its low nibble above
/// the third byte to give y.
pub open spec fn point_at(args: Seq<u8>, at: int) -> (int, int) {
    ((args[at] as int / 16) * 256 + args[at + 1] as int, (args[at] as int % 16) * 256 + args[at
        + 2] as int)
}

/// A coordinate moved by `size`, down if `is_minus`. `None` if that would
/// take it below zero.
pub open spec fn moved(coordinate: int, size: int, is_minus: bool) -> Option<int> {
    if is_minus {
        if size > coordinate {
            None
        } else {
            Some(coordinate - size)
        }
    } else {
        Some(coordinate + size)
    }
}

/// The number that a byte stands for in two's complement.
pub open spec fn twos_complement(b: u8) -> int {
    if b >= 128 {
        b as int - 256
    } else {
        b as int
    }
}

/// Converts three bytes XY, XX, YY to x and y.
fn xy_from_triple(data: &[u8]) -> (xy: (usize, usize))
    requires
        data@.len() >= 3,
    ensures
        (xy.0 as int, xy.1 as int) == point_at(data@, 0),
        xy.0 <= 4095,
        xy.1 <= 4095,
{
    let b0 = data[0];
    let high = b0 >> 4;
    let low = b0 & 0xf;
    assert(high == b0 / 16 && low == b0 % 16) by (bit_vector)
        requires
            high == b0 >> 4,
            low == b0 & 0xf,
    ;
    let x = (high as usize) * 256 + (data[1] as usize);
    let y = (low as usize) * 256 + (data[2] as usize);
    (x, y)
}

/// The canvas after the absolute points from byte `at` on are joined up,
/// starting from `(x, y)`.
pub open spec fn long_lines_from(
    canvas: Seq<u8>,
    colour: u8,
    args: Seq<u8>,
    at: int,
    x: int,
    y: int,
) -> Seq<u8>
    decreases args.len() - at,
{
    if at < 0 || at + 3 > args.len() {
        canvas
    } else {
        let (new_x, new_y) = point_at(args, at);
        long_lines_from(
            line_canvas(canvas, colour, x, y, new_x, new_y),
            colour,
            args,
            at + 3,
            new_x,
            new_y,
        )
    }
}

/// The canvas after a `LongLines` token: an absolute start and then
/// absolute points, three bytes each, joined by segments.
pub open spec fn long_lines_canvas(canvas: Seq<u8>, colour: u8, args: Seq<u8>) -> Seq<u8> {
    if args.len() < 3 {
        canvas
    } else {
        long_lines_from(canvas, colour, args, 3, point_at(args, 0).0, point_at(args, 0).1)
    }
}

/// The canvas after the moves of two bytes from byte `at` on. The first
/// byte moves y by its low seven bits, up if its high bit is set; the second
/// moves x and is read in two's complement. A move that would take y below
/// zero ends the token.
pub open spec fn medium_lines_from(
    canvas: Seq<u8>,
    colour: u8,
    args: Seq<u8>,
    at: int,
    x: int,
    y: int,
) -> Seq<u8>
    decreases args.len() - at,
{
    if at < 0 || at + 2 > args.len() {
        canvas
    } else {
        match moved(y, args[at] as int % 128, args[at] >= 128) {
            None => canvas,
            Some(new_y) => {
                let new_x = x + twos_complement(args[at + 1]);
                medium_lines_from(
                    line_canvas(canvas, colour, x, y, new_x, new_y),
                    colour,
                    args,
                    at + 2,
                    new_x,
                    new_y,
                )
            },
        }
    }
}

/// The canvas after a `MediumRelativeLines` token.
pub open spec fn medium_lines_canvas(canvas: Seq<u8>, colour: u8, args: Seq<u8>) -> Seq<u8> {
    if args.len() < 3 {
        canvas
    } else {
        medium_lines_from(canvas, colour, args, 3, point_at(args, 0).0, point_at(args, 0).1)
    }
}

/// Where a short move takes `(x, y)`. The high nibble of the byte moves x,
/// the low nibble y, each by its low three bits and towards zero if its
/// fourth bit is set. `None` if either would go below zero.
pub open spec fn short_move(x: int, y: int, b: u8) -> Option<(int, int)> {
    match moved(x, (b as int / 16) % 8, b >= 128) {
        None => None,
        Some(new_x) => match moved(y, b as int % 8, (b as int / 8) % 2 == 1) {
            None => None,
            Some(new_y) => Some((new_x, new_y)),
        },
    }
}

/// The canvas after the moves of one byte from byte `at` on. A move that
/// would take a coordinate below zero ends the token.
pub open spec fn short_lines_from(
    canvas: Seq<u8>,
    colour: u8,
    args: Seq<u8>,
    at: int,
    x: int,
    y: int,
) -> Seq<u8>
    decreases args.len() - at,
{
    if at < 0 || at + 1 > args.len() {
        canvas
    } else {
        match short_move(x, y, args[at]) {
            None => canvas,
            Some((new_x, new_y)) => short_lines_from(
                line_canvas(canvas, colour, x, y, new_x, new_y),
                colour,
                args,
                at + 1,
                new_x,
                new_y,
            ),
        }
    }
}

/// The canvas after a `ShortRelativeLines` token.
pub open spec fn short_lines_canvas(canvas: Seq<u8>, colour: u8, args: Seq<u8>) -> Seq<u8> {
    if args.len() < 3 {
        canvas
    } else {
        short_lines_from(canvas, colour, args, 3, point_at(args, 0).0, point_at(args, 0).1)
    }
}

/// Computes [`moved`].
fn move_coordinate(coordinate: i128, size: u8, is_minus: bool) -> (r: Option<i128>)
    requires
        0 <= coordinate <= COORDINATE_LIMIT,
    ensures
        r.is_some() == moved(coordinate as int, size as int, is_minus).is_some(),
        r matches Some(c) ==> moved(coordinate as int, size as int, is_minus) == Some(c as int),
{
    if is_minus {
        if (size as i128) > coordinate {
            None
        } else {
            Some(coordinate - (size as i128))
        }
    } else {
        Some(coordinate + (size as i128))
    }
}

/// Draws the segments of a `LongLines` token.
fn draw_long_lines(picture: &mut Vec<u8>, colour: u8, arguments: &[u8])
    requires
        old(picture)@.len() == PIXELS,
    ensures
        final(picture)@ == long_lines_canvas(old(picture)@, colour, arguments@),
        final(picture)@.len() == PIXELS,
{
    if arguments.len() < 3 {
        return ;
    }
    let start = xy_from_triple(arguments);
    let mut x: usize = start.0;
    let mut y: usize = start.1;
    let mut at: usize = 3;
    while arguments.len() - at >= 3
        invariant
            3 <= at <= arguments@.len(),
            picture@.len() == PIXELS,
            long_lines_canvas(old(picture)@, colour, arguments@) == long_lines_from(
                picture@,
                colour,
                arguments@,
                at as int,
                x as int,
                y as int,
            ),
        decreases arguments@.len() - at,
    {
        let coordinate = &arguments[at..at + 3];
        let point = xy_from_triple(coordinate);
        assert(point_at(coordinate@, 0) == point_at(arguments@, at as int));
        draw_sierra_line(picture, colour, x as i128, y as i128, point.0 as i128, point.1 as i128);
        x = point.0;
        y = point.1;
        at += 3;
    }
}

/// Draws the segments of a `MediumRelativeLines` token.
fn draw_medium_relative_lines(picture: &mut Vec<u8>, colour: u8, arguments: &[u8])
    requires
        old(picture)@.len() == PIXELS,
    ensures
        final(picture)@ == medium_lines_canvas(old(picture)@, colour, arguments@),
        final(picture)@.len() == PIXELS,
{
    if arguments.len() < 3 {
        return ;
    }
    let start = xy_from_triple(arguments);
    let mut x: i128 = start.0 as i128;
    let mut y: i128 = start.1 as i128;
    let mut at: usize = 3;
    while arguments.len() - at >= 2
        invariant
            3 <= at <= arguments@.len(),
            picture@.len() == PIXELS,
            -(4095 + 128 * at) <= x <= 4095 + 128 * at,
            0 <= y <= 4095 + 128 * at,
            medium_lines_canvas(old(picture)@, colour, arguments@) == medium_lines_from(
                picture@,
                colour,
                arguments@,
                at as int,
                x as int,
                y as int,
            ),
        decreases arguments@.len() - at,
    {
        // Y is a magnitude with a sign bit.
        let y_byte = arguments[at];
        let y_raw = y_byte & 0x7f;
        let y_is_minus = y_byte & 0x80 > 0;
        assert(y_raw == y_byte % 128 && y_is_minus == (y_byte >= 128)) by (bit_vector)
            requires
                y_raw == y_byte & 0x7f,
                y_is_minus == (y_byte & 0x80 > 0),
        ;
        let new_y = match move_coordinate(y, y_raw, y_is_minus) {
            Some(new_y) => new_y,
            None => {
                return ;
            },
        };
        // X is in two's complement.
        let x_byte = arguments[at + 1];
        let x_delta: i128 = if x_byte >= 128 {
            (x_byte as i128) - 256
        } else {
            x_byte as i128
        };
        let new_x = x + x_delta;
        draw_sierra_line(picture, colour, x, y, new_x, new_y);
        x = new_x;
        y = new_y;
        at += 2;
    }
}

/// Computes [`short_move`].
fn move_short(x: i128, y: i128, b: u8) -> (r: Option<(i128, i128)>)
    requires
        0 <= x <= COORDINATE_LIMIT,
        0 <= y <= COORDINATE_LIMIT,
    ensures
        r.is_some() == short_move(x as int, y as int, b).is_some(),
        r matches Some(p) ==> short_move(x as int, y as int, b) == Some((p.0 as int, p.1 as int))
            && 0 <= p.0 <= x + 7 && 0 <= p.1 <= y + 7,
{
    let x_nibble = b >> 4;
    let x_raw = x_nibble & 0x7;
    let x_is_minus = x_nibble & 8 != 0;
    let y_raw = b & 0x7;
    let y_is_minus = b & 8 != 0;
    assert(x_raw == (b / 16) % 8 && x_is_minus == (b >= 128) && y_raw == b % 8 && y_is_minus == ((b
        / 8) % 2 == 1)) by (bit_vector)
        requires
            x_nibble == b >> 4,
            x_raw == x_nibble & 0x7,
            x_is_minus == (x_nibble & 8 != 0),
            y_raw == b & 0x7,
            y_is_minus == (b & 8 != 0),
    ;
    let new_x = match move_coordinate(x, x_raw, x_is_minus) {
        Some(new_x) => new_x,
        None => {
            return None;
        },
    };
    let new_y = match move_coordinate(y, y_raw, y_is_minus) {
        Some(new_y) => new_y,
        None => {
            return None;
        },
    };
    Some((new_x, new_y))
}

/// Draws the segments of a `ShortRelativeLines` token.
fn draw_short_relative_lines(picture: &mut Vec<u8>, colour: u8, arguments: &[u8])
    requires
        old(picture)@.len() == PIXELS,
    ensures
        final(picture)@ == short_lines_canvas(old(picture)@, colour, arguments@),
        final(picture)@.len() == PIXELS,
{
    if arguments.len() < 3 {
        return ;
    }
    let start = xy_from_triple(arguments);
    let mut x: i128 = start.0 as i128;
    let mut y: i128 = start.1 as i128;
    let mut at: usize = 3;
    while at < arguments.len()
        invariant
            3 <= at <= arguments@.len(),
            picture@.len() == PIXELS,
            0 <= x <= 4095 + 7 * at,
            0 <= y <= 4095 + 7 * at,
            short_lines_canvas(old(picture)@, colour, arguments@) == short_lines_from(
                picture@,
                colour,
                arguments@,
                at as int,
                x as int,
                y as int,
            ),
        decreases arguments@.len() - at,
    {
        let (new_x, new_y) = match move_short(x, y, arguments[at]) {
            Some(point) => point,
            None => {
                return ;
            },
        };
        draw_sierra_line(picture, colour, x, y, new_x, new_y);
        x = new_x;
        y = new_y;
        at += 1;
    }
}

/// The pattern number that stands at byte `at`, if stamps carry one.
pub open spec fn pattern_number_at(args: Seq<u8>, at: int, is_pattern: bool) -> int {
    if is_pattern {
        args[at] as int
    } else {
        0
    }
}

/// How many bytes a pattern number takes in front of a stamp: one with
/// textures, none without.
pub open spec fn number_width(is_pattern: bool) -> int {
    if is_pattern {
        1
    } else {
        0
    }
}

/// The canvas after the absolute stamps from byte `at` on.
pub open spec fn long_patterns_from(
    canvas: Seq<u8>,
    colour: u8,
    args: Seq<u8>,
    at: int,
    size: int,
    is_pattern: bool,
    is_rectangle: bool,
) -> Seq<u8>
    decreases args.len() - at,
{
    let chunk = number_width(is_pattern) + 3;
    if at < 0 || at + chunk > args.len() {
        canvas
    } else {
        let (x, y) = point_at(args, at + number_width(is_pattern));
        long_patterns_from(
            pattern_canvas(
                canvas,
                colour,
                x,
                y,
                pattern_number_at(args, at, is_pattern),
                size,
                is_pattern,
                is_rectangle,
            ),
            colour,
            args,
            at + chunk,
            size,
            is_pattern,
            is_rectangle,
        )
    }
}

/// The canvas after the stamps of a `MediumRelativePatterns` token from
/// byte `at` on, the last stamp standing at `(x, y)`. Each stamp moves as a
/// medium line does, and a move that would take y below zero ends the token.
pub open spec fn medium_patterns_from(
    canvas: Seq<u8>,
    colour: u8,
    args: Seq<u8>,
    at: int,
    x: int,
    y: int,
    size: int,
    is_pattern: bool,
    is_rectangle: bool,
) -> Seq<u8>
    decreases args.len() - at,
{
    let chunk = number_width(is_pattern) + 2;
    if at < 0 || at + chunk > args.len() {
        canvas
    } else {
        let y_byte = args[at + number_width(is_pattern)];
        match moved(y, y_byte as int % 128, y_byte >= 128) {
            None => canvas,
            Some(new_y) => {
                let new_x = x + twos_complement(args[at + number_width(is_pattern) + 1]);
                medium_patterns_from(
                    pattern_canvas(
                        canvas,
                        colour,
                        new_x,
                        new_y,
                        pattern_number_at(args, at, is_pattern),
                        size,
                        is_pattern,
                        is_rectangle,
                    ),
                    colour,
                    args,
                    at + chunk,
                    new_x,
                    new_y,
                    size,
                    is_pattern,
                    is_rectangle,
                )
            },
        }
    }
}

/// The canvas after a `MediumRelativePatterns` token: a first stamp at an
/// absolute point, then stamps that move relative to the one before.
pub open spec fn medium_patterns_canvas(
    canvas: Seq<u8>,
    colour: u8,
    args: Seq<u8>,
    size: int,
    is_pattern: bool,
    is_rectangle: bool,
) -> Seq<u8> {
    let base = number_width(is_pattern);
    if args.len() < base + 3 {
        canvas
    } else {
        let (x, y) = point_at(args, base);
        medium_patterns_from(
            pattern_canvas(
                canvas,
                colour,
                x,
                y,
                pattern_number_at(args, 0, is_pattern),
                size,
                is_pattern,
                is_rectangle,
            ),
            colour,
            args,
            base + 3,
            x,
            y,
            size,
            is_pattern,
            is_rectangle,
        )
    }
}

/// The canvas after the stamps of a `ShortRelativePatterns` token from byte
/// `at` on, the last stamp standing at `(x, y)`. Each stamp moves as a short
/// line does, and a move below zero ends the token.
pub open spec fn short_patterns_from(
    canvas: Seq<u8>,
    colour: u8,
    args: Seq<u8>,
    at: int,
    x: int,
    y: int,
    size: int,
    is_pattern: bool,
    is_rectangle: bool,
) -> Seq<u8>
    decreases args.len() - at,
{
    let chunk = number_width(is_pattern) + 1;
    if at < 0 || at + chunk > args.len() {
        canvas
    } else {
        match short_move(x, y, args[at + number_width(is_pattern)]) {
            None => canvas,
            Some((new_x, new_y)) => short_patterns_from(
                pattern_canvas(
                    canvas,
                    colour,
                    new_x,
                    new_y,
                    pattern_number_at(args, at, is_pattern),
                    size,
                    is_pattern,
                    is_rectangle,
                ),
                colour,
                args,
                at + chunk,
                new_x,
                new_y,
                size,
                is_pattern,
                is_rectangle,
            ),
        }
    }
}

/// The canvas after a `ShortRelativePatterns` token.
pub open spec fn short_patterns_canvas(
    canvas: Seq<u8>,
    colour: u8,
    args: Seq<u8>,
    size: int,
    is_pattern: bool,
    is_rectangle: bool,
) -> Seq<u8> {
    let base = number_width(is_pattern);
    if args.len() < base + 3 {
        canvas
    } else {
        let (x, y) = point_at(args, base);
        short_patterns_from(
            pattern_canvas(
                canvas,
                colour,
                x,
                y,
                pattern_number_at(args, 0, is_pattern),
                size,
                is_pattern,
                is_rectangle,
            ),
            colour,
            args,
            base + 3,
            x,
            y,
            size,
            is_pattern,
            is_rectangle,
        )
    }
}

/// The canvas after the fills from the seeds from byte `at` on, three bytes
/// a seed.
pub open spec fn fills_from(canvas: Seq<u8>, colour: u8, args: Seq<u8>, at: int) -> Seq<u8>
    decreases args.len() - at,
{
    if at < 0 || at + 3 > args.len() {
        canvas
    } else {
        let (x, y) = point_at(args, at);
        fills_from(fill_canvas(canvas, colour, x, y), colour, args, at + 3)
    }
}

/// Stamps the brushes of a `LongPatterns` token.
fn draw_long_patterns(
    picture: &mut Vec<u8>,
    arguments: &[u8],
    colour: u8,
    pattern_size: usize,
    is_pattern: bool,
    is_rectangle: bool,
)
    requires
        old(picture)@.len() == PIXELS,
        pattern_size <= 7,
    ensures
        final(picture)@ == long_patterns_from(
            old(picture)@,
            colour,
            arguments@,
            0,
            pattern_size as int,
            is_pattern,
            is_rectangle,
        ),
        final(picture)@.len() == PIXELS,
{
    let chunk_size: usize = if is_pattern { 4 } else { 3 };
    let mut at: usize = 0;
    while arguments.len() - at >= chunk_size
        invariant
            at <= arguments@.len(),
            picture@.len() == PIXELS,
            pattern_size <= 7,
            chunk_size == number_width(is_pattern) + 3,
            long_patterns_from(
                old(picture)@,
                colour,
                arguments@,
                0,
                pattern_size as int,
                is_pattern,
                is_rectangle,
            ) == long_patterns_from(
                picture@,
                colour,
                arguments@,
                at as int,
                pattern_size as int,
                is_pattern,
                is_rectangle,
            ),
        decreases arguments@.len() - at,
    {
        let pattern_number: u8 = if is_pattern { arguments[at] } else { 0 };
        let triple = &arguments[at + chunk_size - 3..at + chunk_size];
        let point = xy_from_triple(triple);
        assert(point_at(triple@, 0) == point_at(arguments@, at + number_width(is_pattern)));
        draw_pattern(
            picture,
            colour,
            point.0 as i128,
            point.1 as i128,
            pattern_number as usize,
            pattern_size,
            is_pattern,
            is_rectangle,
        );
        at += chunk_size;
    }
}

/// Stamps the brushes of a `MediumRelativePatterns` token.
fn draw_medium_relative_patterns(
    picture: &mut Vec<u8>,
    arguments: &[u8],
    colour: u8,
    pattern_size: usize,
    is_pattern: bool,
    is_rectangle: bool,
)
    requires
        old(picture)@.len() == PIXELS,
        pattern_size <= 7,
    ensures
        final(picture)@ == medium_patterns_canvas(
            old(picture)@,
            colour,
            arguments@,
            pattern_size as int,
            is_pattern,
            is_rectangle,
        ),
        final(picture)@.len() == PIXELS,
{
    // The pattern number is only there with textures.
    let base: usize = if is_pattern { 1 } else { 0 };
    if arguments.len() < base + 3 {
        return ;
    }
    let pattern_number: u8 = if is_pattern { arguments[0] } else { 0 };
    // The starting position:
    let triple = &arguments[base..base + 3];
    let start = xy_from_triple(triple);
    assert(point_at(triple@, 0) == point_at(arguments@, base as int));
    let mut x: i128 = start.0 as i128;
    let mut y: i128 = start.1 as i128;
    draw_pattern(
        picture,
        colour,
        x,
        y,
        pattern_number as usize,
        pattern_size,
        is_pattern,
        is_rectangle,
    );
    // The remaining ones are deltas:
    let chunk_size: usize = base + 2;
    let mut at: usize = base + 3;
    while arguments.len() - at >= chunk_size
        invariant
            base + 3 <= at <= arguments@.len(),
            picture@.len() == PIXELS,
            pattern_size <= 7,
            base == number_width(is_pattern),
            chunk_size == base + 2,
            -(4095 + 128 * at) <= x <= 4095 + 128 * at,
            0 <= y <= 4095 + 128 * at,
            medium_patterns_canvas(
                old(picture)@,
                colour,
                arguments@,
                pattern_size as int,
                is_pattern,
                is_rectangle,
            ) == medium_patterns_from(
                picture@,
                colour,
                arguments@,
                at as int,
                x as int,
                y as int,
                pattern_size as int,
                is_pattern,
                is_rectangle,
            ),
        decreases arguments@.len() - at,
    {
        let pattern_number: u8 = if is_pattern { arguments[at] } else { 0 };
        // Y is a magnitude with a sign bit.
        let y_byte = arguments[at + base];
        let y_raw = y_byte & 0x7f;
        let y_is_minus = y_byte & 0x80 > 0;
        assert(y_raw == y_byte % 128 && y_is_minus == (y_byte >= 128)) by (bit_vector)
            requires
                y_raw == y_byte & 0x7f,
                y_is_minus == (y_byte & 0x80 > 0),
        ;
        let new_y = match move_coordinate(y, y_raw, y_is_minus) {
            Some(new_y) => new_y,
            None => {
                return ;
            },
        };
        // X is in two's complement.
        let x_byte = arguments[at + base + 1];
        let x_delta: i128 = if x_byte >= 128 {
            (x_byte as i128) - 256
        } else {
            x_byte as i128
        };
        x = x + x_delta;
        y = new_y;
        draw_pattern(
            picture,
            colour,
            x,
            y,
            pattern_number as usize,
            pattern_size,
            is_pattern,
            is_rectangle,
        );
        at += chunk_size;
    }
}

/// Stamps the brushes of a `ShortRelativePatterns` token.
fn draw_short_relative_patterns(
    picture: &mut Vec<u8>,
    arguments: &[u8],
    colour: u8,
    pattern_size: usize,
    is_pattern: bool,
    is_rectangle: bool,
)
    requires
        old(picture)@.len() == PIXELS,
        pattern_size <= 7,
    ensures
        final(picture)@ == short_patterns_canvas(
            old(picture)@,
            colour,
            arguments@,
            pattern_size as int,
            is_pattern,
            is_rectangle,
        ),
        final(picture)@.len() == PIXELS,
{
    // The pattern number is only there with textures.
    let base: usize = if is_pattern { 1 } else { 0 };
    if arguments.len() < base + 3 {
        return ;
    }
    let pattern_number: u8 = if is_pattern { arguments[0] } else { 0 };
    // The starting position:
    let triple = &arguments[base..base + 3];
    let start = xy_from_triple(triple);
    assert(point_at(triple@, 0) == point_at(arguments@, base as int));
    let mut x: i128 = start.0 as i128;
    let mut y: i128 = start.1 as i128;
    draw_pattern(
        picture,
        colour,
        x,
        y,
        pattern_number as usize,
        pattern_size,
        is_pattern,
        is_rectangle,
    );
    // The remaining ones are deltas:
    let chunk_size: usize = base + 1;
    let mut at: usize = base + 3;
    while arguments.len() - at >= chunk_size
        invariant
            base + 3 <= at <= arguments@.len(),
            picture@.len() == PIXELS,
            pattern_size <= 7,
            base == number_width(is_pattern),
            chunk_size == base + 1,
            0 <= x <= 4095 + 7 * at,
            0 <= y <= 4095 + 7 * at,
            short_patterns_canvas(
                old(picture)@,
                colour,
                arguments@,
                pattern_size as int,
                is_pattern,
                is_rectangle,
            ) == short_patterns_from(
                picture@,
                colour,
                arguments@,
                at as int,
                x as int,
                y as int,
                pattern_size as int,
                is_pattern,
                is_rectangle,
            ),
        decreases arguments@.len() - at,
    {
        let pattern_number: u8 = if is_pattern { arguments[at] } else { 0 };
        let xy = arguments[at + base];
        let (new_x, new_y) = match move_short(x, y, xy) {
            Some(point) => point,
            None => {
                return ;
            },
        };
        x = new_x;
        y = new_y;
        draw_pattern(
            picture,
            colour,
            x,
            y,
            pattern_number as usize,
            pattern_size,
            is_pattern,
            is_rectangle,
        );
        at += chunk_size;
    }
}

/// Fills from each seed of a `FloodFill` token. Seeds off the canvas are
/// passed over.
fn fill(picture: &mut Vec<u8>, colour: u8, arguments: &[u8])
    requires
        old(picture)@.len() == PIXELS,
    ensures
        final(picture)@ == fills_from(old(picture)@, colour, arguments@, 0),
        final(picture)@.len() == PIXELS,
{
    let mut at: usize = 0;
    while arguments.len() - at >= 3
        invariant
            at <= arguments@.len(),
            picture@.len() == PIXELS,
            fills_from(old(picture)@, colour, arguments@, 0) == fills_from(
                picture@,
                colour,
                arguments@,
                at as int,
            ),
        decreases arguments@.len() - at,
    {
        let chunk = &arguments[at..at + 3];
        let seed = xy_from_triple(chunk);
        assert(point_at(chunk@, 0) == point_at(arguments@, at as int));
        fill_from(picture, colour, seed.0, seed.1);
        at += 3;
    }
}

/// What the interpreter carries from one token to the next. It changes
/// only where a token says so.
#[derive(Clone, Copy, Debug, PartialEq, Eq, Structural)]
pub struct InterpreterState {
    /// Whether lines, stamps and fills reach the canvas.
    pub is_drawing: bool,
    /// The palette index to draw with.
    pub colour: u8,
    /// Whether the brush is a square, not a circle.
    pub is_rectangle: bool,
    /// Whether the brush is thinned by a texture.
    pub is_pattern: bool,
    /// The brush size, 0 to 7.
    pub pattern_size: u8,
}

/// The state before the first token: drawing off, the colour white, a solid
/// square brush of size 0.
pub open spec fn initial_state() -> InterpreterState {
    InterpreterState {
        is_drawing: false,
        colour: WHITE,
        is_rectangle: true,
        is_pattern: false,
        pattern_size: 0,
    }
}

/// The canvas before the first token: all white.
pub open spec fn blank_canvas() -> Seq<u8> {
    Seq::new(PIXELS as nat, |i: int| WHITE)
}

/// The state after a token.
pub open spec fn state_after(state: InterpreterState, token: Token) -> InterpreterState {
    let args = token.arguments;
    match token.action {
        Action::SetVisualColour => InterpreterState {
            is_drawing: true,
            colour: if args.len() == 0 {
                state.colour
            } else if args[0] >= PALETTE_SIZE {
                0
            } else {
                args[0]
            },
            ..state
        },
        Action::DisableVisual => InterpreterState { is_drawing: false, ..state },
        Action::SetPattern => if args.len() == 0 {
            state
        } else {
            InterpreterState {
                is_rectangle: args[0] & 0x10 != 0,
                is_pattern: args[0] & 0x20 != 0,
                pattern_size: args[0] & 7,
                ..state
            }
        },
        _ => state,
    }
}

/// The canvas after a token. Only lines, stamps and fills touch it, and
/// only while drawing is on.
pub open spec fn canvas_after(state: InterpreterState, canvas: Seq<u8>, token: Token) -> Seq<u8> {
    let args = token.arguments;
    let size = state.pattern_size as int;
    if !state.is_drawing {
        canvas
    } else {
        match token.action {
            Action::LongLines => long_lines_canvas(canvas, state.colour, args),
            Action::MediumRelativeLines => medium_lines_canvas(canvas, state.colour, args),
            Action::ShortRelativeLines => short_lines_canvas(canvas, state.colour, args),
            Action::LongPatterns => long_patterns_from(
                canvas,
                state.colour,
                args,
                0,
                size,
                state.is_pattern,
                state.is_rectangle,
            ),
            Action::MediumRelativePatterns => medium_patterns_canvas(
                canvas,
                state.colour,
                args,
                size,
                state.is_pattern,
                state.is_rectangle,
            ),
            Action::ShortRelativePatterns => short_patterns_canvas(
                canvas,
                state.colour,
                args,
                size,
                state.is_pattern,
                state.is_rectangle,
            ),
            Action::FloodFill => fills_from(canvas, state.colour, args, 0),
            _ => canvas,
        }
    }
}

/// The canvas once the tokens from `at` on have run, up to the first `End`
/// or, without one, to the last token.
pub open spec fn render_from(
    state: InterpreterState,
    canvas: Seq<u8>,
    tokens: Seq<Token>,
    at: int,
) -> Seq<u8>
    decreases tokens.len() - at,
{
    if at < 0 || at >= tokens.len() || tokens[at].action == Action::End {
        canvas
    } else {
        render_from(
            state_after(state, tokens[at]),
            canvas_after(state, canvas, tokens[at]),
            tokens,
            at + 1,
        )
    }
}

/// The picture that a run of tokens draws.
pub open spec fn rendered(tokens: Seq<Token>) -> Seq<u8> {
    render_from(initial_state(), blank_canvas(), tokens, 0)
}

/// Whether a canvas has its size and holds palette indexes only.
pub open spec fn within_palette(canvas: Seq<u8>) -> bool {
    canvas.len() == PIXELS && forall|i: int| 0 <= i < PIXELS ==> #[trigger] canvas[i] < PALETTE_SIZE
}

/// The chain of segments keeps a canvas within the palette.
pub proof fn lemma_long_lines_within(
    canvas: Seq<u8>,
    colour: u8,
    args: Seq<u8>,
    at: int,
    x: int,
    y: int,
)
    requires
        within_palette(canvas),
        colour < PALETTE_SIZE,
    ensures
        within_palette(long_lines_from(canvas, colour, args, at, x, y)),
    decreases args.len() - at,
{
    if !(at < 0 || at + 3 > args.len()) {
        let (new_x, new_y) = point_at(args, at);
        lemma_long_lines_within(
            line_canvas(canvas, colour, x, y, new_x, new_y),
            colour,
            args,
            at + 3,
            new_x,
            new_y,
        );
    }
}

/// Medium lines keep a canvas within the palette.
pub proof fn lemma_medium_lines_within(
    canvas: Seq<u8>,
    colour: u8,
    args: Seq<u8>,
    at: int,
    x: int,
    y: int,
)
    requires
        within_palette(canvas),
        colour < PALETTE_SIZE,
    ensures
        within_palette(medium_lines_from(canvas, colour, args, at, x, y)),
    decreases args.len() - at,
{
    if !(at < 0 || at + 2 > args.len()) {
        match moved(y, args[at] as int % 128, args[at] >= 128) {
            None => {},
            Some(new_y) => {
                let new_x = x + twos_complement(args[at + 1]);
                lemma_medium_lines_within(
                    line_canvas(canvas, colour, x, y, new_x, new_y),
                    colour,
                    args,
                    at + 2,
                    new_x,
                    new_y,
                );
            },
        }
    }
}

/// Short lines keep a canvas within the palette.
pub proof fn lemma_short_lines_within(
    canvas: Seq<u8>,
    colour: u8,
    args: Seq<u8>,
    at: int,
    x: int,
    y: int,
)
    requires
        within_palette(canvas),
        colour < PALETTE_SIZE,
    ensures
        within_palette(short_lines_from(canvas, colour, args, at, x, y)),
    decreases args.len() - at,
{
    if !(at < 0 || at + 1 > args.len()) {
        match short_move(x, y, args[at]) {
            None => {},
            Some((new_x, new_y)) => {
                lemma_short_lines_within(
                    line_canvas(canvas, colour, x, y, new_x, new_y),
                    colour,
                    args,
                    at + 1,
                    new_x,
                    new_y,
                );
            },
        }
    }
}

/// Long patterns keep a canvas within the palette.
pub proof fn lemma_long_patterns_within(
    canvas: Seq<u8>,
    colour: u8,
    args: Seq<u8>,
    at: int,
    size: int,
    is_pattern: bool,
    is_rectangle: bool,
)
    requires
        within_palette(canvas),
        colour < PALETTE_SIZE,
    ensures
        within_palette(
            long_patterns_from(canvas, colour, args, at, size, is_pattern, is_rectangle),
        ),
    decreases args.len() - at,
{
    let chunk = number_width(is_pattern) + 3;
    if !(at < 0 || at + chunk > args.len()) {
        let (x, y) = point_at(args, at + number_width(is_pattern));
        lemma_long_patterns_within(
            pattern_canvas(
                canvas,
                colour,
                x,
                y,
                pattern_number_at(args, at, is_pattern),
                size,
                is_pattern,
                is_rectangle,
            ),
            colour,
            args,
            at + chunk,
            size,
            is_pattern,
            is_rectangle,
        );
    }
}

/// Medium patterns keep a canvas within the palette.
pub proof fn lemma_medium_patterns_within(
    canvas: Seq<u8>,
    colour: u8,
    args: Seq<u8>,
    at: int,
    x: int,
    y: int,
    size: int,
    is_pattern: bool,
    is_rectangle: bool,
)
    requires
        within_palette(canvas),
        colour < PALETTE_SIZE,
    ensures
        within_palette(
            medium_patterns_from(canvas, colour, args, at, x, y, size, is_pattern, is_rectangle),
        ),
    decreases args.len() - at,
{
    let chunk = number_width(is_pattern) + 2;
    if !(at < 0 || at + chunk > args.len()) {
        let y_byte = args[at + number_width(is_pattern)];
        match moved(y, y_byte as int % 128, y_byte >= 128) {
            None => {},
            Some(new_y) => {
                let new_x = x + twos_complement(args[at + number_width(is_pattern) + 1]);
                lemma_medium_patterns_within(
                    pattern_canvas(
                        canvas,
                        colour,
                        new_x,
                        new_y,
                        pattern_number_at(args, at, is_pattern),
                        size,
                        is_pattern,
                        is_rectangle,
                    ),
                    colour,
                    args,
                    at + chunk,
                    new_x,
                    new_y,
                    size,
                    is_pattern,
                    is_rectangle,
                );
            },
        }
    }
}

/// Short patterns keep a canvas within the palette.
pub proof fn lemma_short_patterns_within(
    canvas: Seq<u8>,
    colour: u8,
    args: Seq<u8>,
    at: int,
    x: int,
    y: int,
    size: int,
    is_pattern: bool,
    is_rectangle: bool,
)
    requires
        within_palette(canvas),
        colour < PALETTE_SIZE,
    ensures
        within_palette(
            short_patterns_from(canvas, colour, args, at, x, y, size, is_pattern, is_rectangle),
        ),
    decreases args.len() - at,
{
    let chunk = number_width(is_pattern) + 1;
    if !(at < 0 || at + chunk > args.len()) {
        match short_move(x, y, args[at + number_width(is_pattern)]) {
            None => {},
            Some((new_x, new_y)) => {
                lemma_short_patterns_within(
                    pattern_canvas(
                        canvas,
                        colour,
                        new_x,
                        new_y,
                        pattern_number_at(args, at, is_pattern),
                        size,
                        is_pattern,
                        is_rectangle,
                    ),
                    colour,
                    args,
                    at + chunk,
                    new_x,
                    new_y,
                    size,
                    is_pattern,
                    is_rectangle,
                );
            },
        }
    }
}

/// Fills keep a canvas within the palette.
pub proof fn lemma_fills_within(canvas: Seq<u8>, colour: u8, args: Seq<u8>, at: int)
    requires
        within_palette(canvas),
        colour < PALETTE_SIZE,
    ensures
        within_palette(fills_from(canvas, colour, args, at)),
    decreases args.len() - at,
{
    if !(at < 0 || at + 3 > args.len()) {
        let (x, y) = point_at(args, at);
        lemma_fills_within(fill_canvas(canvas, colour, x, y), colour, args, at + 3);
    }
}

/// A token keeps the colour and the canvas within the palette.
pub proof fn lemma_token_within(state: InterpreterState, canvas: Seq<u8>, token: Token)
    requires
        within_palette(canvas),
        state.colour < PALETTE_SIZE,
    ensures
        within_palette(canvas_after(state, canvas, token)),
        state_after(state, token).colour < PALETTE_SIZE,
{
    let args = token.arguments;
    let size = state.pattern_size as int;
    let colour = state.colour;
    if state.is_drawing {
        if args.len() >= 3 {
            lemma_long_lines_within(canvas, colour, args, 3, point_at(args, 0).0, point_at(args, 0).1);
            lemma_medium_lines_within(
                canvas,
                colour,
                args,
                3,
                point_at(args, 0).0,
                point_at(args, 0).1,
            );
            lemma_short_lines_within(
                canvas,
                colour,
                args,
                3,
                point_at(args, 0).0,
                point_at(args, 0).1,
            );
        }
        lemma_long_patterns_within(canvas, colour, args, 0, size, state.is_pattern, state.is_rectangle);
        let base = number_width(state.is_pattern);
        if args.len() >= base + 3 {
            let (x, y) = point_at(args, base);
            let first = pattern_canvas(
                canvas,
                colour,
                x,
                y,
                pattern_number_at(args, 0, state.is_pattern),
                size,
                state.is_pattern,
                state.is_rectangle,
            );
            lemma_medium_patterns_within(
                first,
                colour,
                args,
                base + 3,
                x,
                y,
                size,
                state.is_pattern,
                state.is_rectangle,
            );
            lemma_short_patterns_within(
                first,
                colour,
                args,
                base + 3,
                x,
                y,
                size,
                state.is_pattern,
                state.is_rectangle,
            );
        }
        lemma_fills_within(canvas, colour, args, 0);
    }
}

/// Every pixel of a picture is a palette index: whatever the tokens, the
/// canvas has 320 by 190 pixels with values from 0 to 16.
pub proof fn lemma_rendered_within_palette(tokens: Seq<Token>)
    ensures
        within_palette(rendered(tokens)),
{
    lemma_render_within(initial_state(), blank_canvas(), tokens, 0);
}

/// Running tokens keeps a canvas within the palette.
pub proof fn lemma_render_within(
    state: InterpreterState,
    canvas: Seq<u8>,
    tokens: Seq<Token>,
    at: int,
)
    requires
        within_palette(canvas),
        state.colour < PALETTE_SIZE,
    ensures
        within_palette(render_from(state, canvas, tokens, at)),
    decreases tokens.len() - at,
{
    if !(at < 0 || at >= tokens.len() || tokens[at].action == Action::End) {
        lemma_token_within(state, canvas, tokens[at]);
        lemma_render_within(
            state_after(state, tokens[at]),
            canvas_after(state, canvas, tokens[at]),
            tokens,
            at + 1,
        );
    }
}

/// A white canvas.
fn new_canvas() -> (picture: Vec<u8>)
    ensures
        picture@ == blank_canvas(),
{
    let mut picture: Vec<u8> = Vec::with_capacity(PIXELS);
    while picture.len() < PIXELS
        invariant
            picture@.len() <= PIXELS,
            forall|i: int| 0 <= i < picture@.len() ==> picture@[i] == WHITE,
        decreases PIXELS - picture@.len(),
    {
        picture.push(WHITE);
    }
    assert(picture@ =~= blank_canvas());
    picture
}

impl InterpreterState {
    /// The state before the first token.
    pub fn new() -> (state: Self)
        ensures
            state == initial_state(),
    {
        InterpreterState {
            is_drawing: false,
            colour: WHITE,
            is_rectangle: true,
            is_pattern: false,
            pattern_size: 0,
        }
    }
}

/// Runs one token: draws what it draws and returns the state after it.
pub fn run_action(state: InterpreterState, picture: &mut Vec<u8>, a: &ActionArguments) -> (next:
    InterpreterState)
    requires
        old(picture)@.len() == PIXELS,
        state.pattern_size <= 7,
    ensures
        next == state_after(state, a@),
        next.pattern_size <= 7,
        final(picture)@ == canvas_after(state, old(picture)@, a@),
        final(picture)@.len() == PIXELS,
{
    let mut next = state;
    let arguments = a.arguments.as_slice();
    let brush_size = state.pattern_size as usize;
    match a.action {
        // Colour:
        Action::SetVisualColour => {
            next.is_drawing = true;
            if arguments.len() > 0 {
                next.colour = arguments[0];
                if next.colour as usize >= PALETTE_SIZE {
                    next.colour = 0;
                }
            }
        },
        Action::DisableVisual => {
            next.is_drawing = false;
        },
        // Lines:
        Action::LongLines => {
            if state.is_drawing {
                draw_long_lines(picture, state.colour, arguments);
            }
        },
        Action::MediumRelativeLines => {
            if state.is_drawing {
                draw_medium_relative_lines(picture, state.colour, arguments);
            }
        },
        Action::ShortRelativeLines => {
            if state.is_drawing {
                draw_short_relative_lines(picture, state.colour, arguments);
            }
        },
        // Patterns:
        Action::SetPattern => {
            if arguments.len() > 0 {
                let b = arguments[0];
                next.is_rectangle = b & 0x10 != 0;  // Or else a circle.
                next.is_pattern = b & 0x20 != 0;  // Or else solid.
                next.pattern_size = b & 7;
                assert(b & 7 <= 7) by (bit_vector);
            }
        },
        Action::LongPatterns => {
            if state.is_drawing {
                draw_long_patterns(
                    picture,
                    arguments,
                    state.colour,
                    brush_size,
                    state.is_pattern,
                    state.is_rectangle,
                );
            }
        },
        Action::MediumRelativePatterns => {
            if state.is_drawing {
                draw_medium_relative_patterns(
                    picture,
                    arguments,
                    state.colour,
                    brush_size,
                    state.is_pattern,
                    state.is_rectangle,
                );
            }
        },
        Action::ShortRelativePatterns => {
            if state.is_drawing {
                draw_short_relative_patterns(
                    picture,
                    arguments,
                    state.colour,
                    brush_size,
                    state.is_pattern,
                    state.is_rectangle,
                );
            }
        },
        // Fills:
        Action::FloodFill => {
            if state.is_drawing {
                fill(picture, state.colour, arguments);
            }
        },
        // Palette edits and the other extensions leave the canvas alone.
        Action::CommandExtensions => {},
        // The priority and control planes are not drawn.
        Action::SetPriorityColour => {},
        Action::DisablePriority => {},
        Action::SetControlColour => {},
        Action::DisableControl => {},
        // Nothing is left to do.
        Action::End => {},
    }
    next
}

/// Runs the tokens against a white canvas, up to the first `End`, and
/// returns the canvas: one palette index per pixel, row after row.
pub fn draw(actions: &[ActionArguments]) -> (picture: Vec<u8>)
    ensures
        picture@ == rendered(tokens_of(actions@)),
        within_palette(picture@),
{
    let ghost tokens = tokens_of(actions@);
    proof {
        lemma_rendered_within_palette(tokens);
    }
    let mut picture = new_canvas();
    let mut state = InterpreterState::new();
    let mut at: usize = 0;
    while at < actions.len()
        invariant
            at <= actions@.len(),
            tokens == tokens_of(actions@),
            within_palette(rendered(tokens)),
            picture@.len() == PIXELS,
            state.pattern_size <= 7,
            rendered(tokens) == render_from(state, picture@, tokens, at as int),
        decreases actions@.len() - at,
    {
        let a = &actions[at];
        assert(tokens[at as int] == a@);
        if a.action == Action::End {
            return picture;
        }
        state = run_action(state, &mut picture, a);
        at += 1;
    }
    picture
}

/// A decoded picture: the canvas, one palette index per pixel.
pub struct Picture {
    pub picture: Vec<u8>,
}

impl Picture {
    /// Splits a picture resource into tokens and draws them.
    ///
    /// Fails exactly where the splitter fails, with its error.
    pub fn parse(data: &[u8]) -> (r: Result<Picture, DecodeError>)
        ensures
            split_tokens(data@, false) matches Ok(tokens) ==> (r matches Ok(p) && p.picture@
                == rendered(tokens)),
            split_tokens(data@, false) matches Err(e) ==> r == Err::<Picture, DecodeError>(e),
            r matches Ok(p) ==> within_palette(p.picture@),
    {
        let actions = match split(data) {
            Ok(actions) => actions,
            Err(e) => {
                return Err(e);
            },
        };
        let picture = draw(actions.as_slice());
        Ok(Picture { picture })
    }
}

} // verus!
