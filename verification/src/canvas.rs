//! The picture canvas: 320 by 190 pixels, one palette index per pixel, row
//! after row from the top left.

use vstd::prelude::*;

verus! {

/// Width of the canvas in pixels.
pub const WIDTH: usize = 320;

/// Height of the canvas in pixels.
pub const HEIGHT: usize = 190;

/// Number of pixels on the canvas.
pub const PIXELS: usize = 60800;

/// Whether the point lies on the canvas.
pub open spec fn on_canvas(x: int, y: int) -> bool {
    0 <= x < WIDTH && 0 <= y < HEIGHT
}

/// The position of a point of the canvas in the pixel buffer.
pub open spec fn pixel_index(x: int, y: int) -> int {
    y * WIDTH + x
}

/// The column of a position in the pixel buffer.
pub open spec fn column_of(i: int) -> int {
    i % (WIDTH as int)
}

/// The row of a position in the pixel buffer.
pub open spec fn row_of(i: int) -> int {
    i / (WIDTH as int)
}

/// A canvas with the pixels of `region` set to `colour`.
pub open spec fn paint(canvas: Seq<u8>, region: Set<int>, colour: u8) -> Seq<u8> {
    Seq::new(
        canvas.len(),
        |i: int|
            if region.contains(i) {
                colour
            } else {
                canvas[i]
            },
    )
}

/// Points of the canvas and positions in the buffer correspond one to one.
pub proof fn lemma_pixel_index(x: int, y: int)
    requires
        on_canvas(x, y),
    ensures
        0 <= pixel_index(x, y) < PIXELS,
        column_of(pixel_index(x, y)) == x,
        row_of(pixel_index(x, y)) == y,
{
}

/// The row and column of a position in the buffer lie on the canvas and lead
/// back to the position.
pub proof fn lemma_pixel_point(i: int)
    requires
        0 <= i < PIXELS,
    ensures
        on_canvas(column_of(i), row_of(i)),
        pixel_index(column_of(i), row_of(i)) == i,
{
}

} // verus!
