//! The fixed EGA palette: sixteen colours and one transparent entry.

use vstd::prelude::*;

verus! {

/// Number of palette entries.
pub const PALETTE_SIZE: usize = 17;

/// Palette index of bright white, the colour of an untouched canvas.
pub const WHITE: u8 = 15;

/// Palette index of the synthetic transparent entry.
pub const TRANSPARENT: u8 = 16;

/// The RGBA value (red in the top byte, alpha in the bottom byte) of each
/// palette index; indexes past the table have no colour and map to 0.
pub open spec fn palette_rgba(index: int) -> u32 {
    if index == 0 {
        0x000000ffu32
    } else if index == 1 {
        0x0000AAffu32
    } else if index == 2 {
        0x00AA00ffu32
    } else if index == 3 {
        0x00AAAAffu32
    } else if index == 4 {
        0xAA0000ffu32
    } else if index == 5 {
        0xAA00AAffu32
    } else if index == 6 {
        0xAA5500ffu32
    } else if index == 7 {
        0xAAAAAAffu32
    } else if index == 8 {
        0x555555ffu32
    } else if index == 9 {
        0x5555FFffu32
    } else if index == 10 {
        0x55FF55ffu32
    } else if index == 11 {
        0x55FFFFffu32
    } else if index == 12 {
        0xFF5555ffu32
    } else if index == 13 {
        0xFF55FFffu32
    } else if index == 14 {
        0xFFFF55ffu32
    } else if index == 15 {
        0xFFFFFFffu32
    } else {
        0u32
    }
}

/// The palette as a table.
pub const PALETTE: [u32; 17] = [
    0x000000ff, 0x0000AAff, 0x00AA00ff, 0x00AAAAff,
    0xAA0000ff, 0xAA00AAff, 0xAA5500ff, 0xAAAAAAff,
    0x555555ff, 0x5555FFff, 0x55FF55ff, 0x55FFFFff,
    0xFF5555ff, 0xFF55FFff, 0xFFFF55ff, 0xFFFFFFff,
    0x0,
];

/// Looks up the RGBA value of a palette index.
pub fn rgba_of(index: u8) -> (rgba: u32)
    requires
        index < PALETTE_SIZE,
    ensures
        rgba == palette_rgba(index as int),
{
    PALETTE[index as usize]
}

} // verus!
