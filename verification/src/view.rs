//! Parses views: sprites and animations, stored as loops of cels.
//!
//! A view starts with the number of its loops and a mask that tells which
//! loops are mirrored, then lists where each loop starts. A loop starts with
//! the number of its cels and lists where each cel starts. All positions
//! count from the start of the view. A cel holds its size, the colour that
//! stands for transparent, and its pixels as runs.

use vstd::prelude::*;
use vstd::view::View as _;
use crate::error::DecodeError;
use crate::palette::TRANSPARENT;

verus! {

/// A view: its loops.
pub struct View {
    pub loops: Vec<Loop>,
}

/// A loop: its cels, which are the frames of an animation.
pub struct Loop {
    pub cels: Vec<Cel>,
}

/// A cel: `width * height` palette indexes, row after row.
#[derive(Clone)]
pub struct Cel {
    pub width: usize,
    pub height: usize,
    pub pixels: Vec<u8>,
}

/// The mathematical value of a [`Cel`].
pub struct CelModel {
    pub width: nat,
    pub height: nat,
    pub pixels: Seq<u8>,
}

impl Cel {
    /// The value of the cel.
    pub open spec fn model(&self) -> CelModel {
        CelModel { width: self.width as nat, height: self.height as nat, pixels: self.pixels@ }
    }
}

impl Loop {
    /// The values of the cels.
    pub open spec fn model(&self) -> Seq<CelModel> {
        Seq::new(self.cels@.len(), |i: int| self.cels@[i].model())
    }
}

impl View {
    /// The values of the loops.
    pub open spec fn model(&self) -> Seq<Seq<CelModel>> {
        Seq::new(self.loops@.len(), |i: int| self.loops@[i].model())
    }
}

/// The number that the two bytes at `at` hold, low byte first.
pub open spec fn le16(data: Seq<u8>, at: int) -> int {
    data[at] as int + 256 * (data[at + 1] as int)
}

/// The palette index of a raw colour: the cel's transparent colour becomes
/// the palette's transparent entry.
pub open spec fn cel_colour(raw: int, transparent: u8) -> u8 {
    if raw == transparent {
        TRANSPARENT
    } else {
        raw as u8
    }
}

/// The run that a byte stands for: as many pixels as its high nibble says,
/// in the colour of its low nibble.
pub open spec fn run_of(b: u8, transparent: u8) -> Seq<u8> {
    Seq::new((b as int / 16) as nat, |i: int| cel_colour(b as int % 16, transparent))
}

/// The runs of the bytes from `from` up to `to`, laid end to end.
pub open spec fn runs(data: Seq<u8>, from: int, to: int, transparent: u8) -> Seq<u8>
    decreases to - from,
{
    if to <= from {
        Seq::empty()
    } else {
        runs(data, from, to - 1, transparent) + run_of(data[to - 1], transparent)
    }
}

/// The pixels of a cel as stored: the runs, cut off at `area` pixels or
/// filled up to it with transparent ones.
pub open spec fn stored_pixels(data: Seq<u8>, at: int, area: nat) -> Seq<u8> {
    let all = runs(data, at + 7, data.len() as int, data[at + 6]);
    Seq::new(
        area,
        |i: int|
            if i < all.len() {
                all[i]
            } else {
                TRANSPARENT
            },
    )
}

/// Rows of `width` pixels, each turned left to right. Pixels behind the
/// last whole row are dropped.
pub open spec fn mirrored(pixels: Seq<u8>, width: nat) -> Seq<u8> {
    if width == 0 {
        Seq::empty()
    } else {
        Seq::new(
            ((pixels.len() / width) * width) as nat,
            |i: int| pixels[(i / width as int) * width + (width - 1 - i % width as int)],
        )
    }
}

/// The cel at byte `at` of a view.
pub open spec fn cel_at(data: Seq<u8>, at: int, is_mirrored: bool) -> Result<
    CelModel,
    DecodeError,
> {
    if at + 7 > data.len() {
        Err(DecodeError::TruncatedInput)
    } else {
        let width = le16(data, at) as nat;
        let height = le16(data, at + 2) as nat;
        let stored = stored_pixels(data, at, width * height);
        Ok(
            CelModel {
                width,
                height,
                pixels: if is_mirrored {
                    mirrored(stored, width)
                } else {
                    stored
                },
            },
        )
    }
}

/// The first `n` cels of the loop at byte `at`, or the error of the first
/// one that cannot be read.
pub open spec fn cels_upto(data: Seq<u8>, at: int, is_mirrored: bool, n: nat) -> Result<
    Seq<CelModel>,
    DecodeError,
>
    decreases n,
{
    if n == 0 {
        Ok(Seq::empty())
    } else {
        match cels_upto(data, at, is_mirrored, (n - 1) as nat) {
            Err(e) => Err(e),
            Ok(cels) => match cel_at(data, le16(data, at + 4 + 2 * (n - 1)), is_mirrored) {
                Err(e) => Err(e),
                Ok(cel) => Ok(cels.push(cel)),
            },
        }
    }
}

/// The loop at byte `at` of a view: the number of cels, two bytes that are
/// passed over, and the position of each cel.
pub open spec fn loop_at(data: Seq<u8>, at: int, is_mirrored: bool) -> Result<
    Seq<CelModel>,
    DecodeError,
> {
    if at + 4 > data.len() || at + 4 + 2 * le16(data, at) > data.len() {
        Err(DecodeError::TruncatedInput)
    } else {
        cels_upto(data, at, is_mirrored, le16(data, at) as nat)
    }
}

/// Whether loop `i` is mirrored: bit `i` of the mask. The mask has sixteen
/// bits, so loops from 16 on are not.
pub open spec fn loop_is_mirrored(mirror_flags: int, i: int) -> bool {
    i < 16 && (mirror_flags / vstd::arithmetic::power2::pow2(i as nat) as int) % 2 == 1
}

/// The first `n` loops of a view, or the error of the first one that cannot
/// be read.
pub open spec fn loops_upto(data: Seq<u8>, n: nat) -> Result<Seq<Seq<CelModel>>, DecodeError>
    decreases n,
{
    if n == 0 {
        Ok(Seq::empty())
    } else {
        match loops_upto(data, (n - 1) as nat) {
            Err(e) => Err(e),
            Ok(loops) => if 8 + 2 * (n - 1) + 2 > data.len() {
                Err(DecodeError::TruncatedInput)
            } else {
                match loop_at(
                    data,
                    le16(data, 8 + 2 * (n - 1)),
                    loop_is_mirrored(le16(data, 2), n - 1),
                ) {
                    Err(e) => Err(e),
                    Ok(cels) => Ok(loops.push(cels)),
                }
            },
        }
    }
}

/// The loops of a view.
pub open spec fn view_loops(data: Seq<u8>) -> Result<Seq<Seq<CelModel>>, DecodeError> {
    if data.len() < 4 {
        Err(DecodeError::TruncatedInput)
    } else {
        loops_upto(data, le16(data, 0) as nat)
    }
}

/// Once a cel cannot be read, no longer run of cels can.
pub proof fn lemma_cels_error_stays(data: Seq<u8>, at: int, is_mirrored: bool, n: nat, m: nat)
    requires
        n <= m,
        cels_upto(data, at, is_mirrored, n).is_err(),
    ensures
        cels_upto(data, at, is_mirrored, m) == cels_upto(data, at, is_mirrored, n),
    decreases m,
{
    if n < m {
        lemma_cels_error_stays(data, at, is_mirrored, n, (m - 1) as nat);
    }
}

/// Once a loop cannot be read, no longer run of loops can.
pub proof fn lemma_loops_error_stays(data: Seq<u8>, n: nat, m: nat)
    requires
        n <= m,
        loops_upto(data, n).is_err(),
    ensures
        loops_upto(data, m) == loops_upto(data, n),
    decreases m,
{
    if n < m {
        lemma_loops_error_stays(data, n, (m - 1) as nat);
    }
}

/// The runs up to `to` end with the run of the last byte.
proof fn lemma_runs_len(data: Seq<u8>, from: int, to: int, transparent: u8)
    requires
        from < to,
    ensures
        runs(data, from, to, transparent).len() == runs(data, from, to - 1, transparent).len()
            + data[to - 1] as int / 16,
{
}

/// The runs up to `mid` are the start of the runs up to `to`.
proof fn lemma_runs_prefix(data: Seq<u8>, from: int, mid: int, to: int, transparent: u8, i: int)
    requires
        from <= mid <= to,
        0 <= i < runs(data, from, mid, transparent).len(),
    ensures
        i < runs(data, from, to, transparent).len(),
        runs(data, from, to, transparent)[i] == runs(data, from, mid, transparent)[i],
    decreases to - mid,
{
    if mid < to {
        lemma_runs_prefix(data, from, mid, to - 1, transparent, i);
    }
}

/// Whether a cel holds `width * height` pixels, each a palette index.
pub open spec fn cel_is_valid(cel: CelModel) -> bool {
    cel.pixels.len() == cel.width * cel.height && forall|i: int|
        0 <= i < cel.pixels.len() ==> #[trigger] cel.pixels[i] <= TRANSPARENT
}

/// Every pixel of a run is a palette index.
pub proof fn lemma_runs_within_palette(
    data: Seq<u8>,
    from: int,
    to: int,
    transparent: u8,
    i: int,
)
    requires
        0 <= i < runs(data, from, to, transparent).len(),
    ensures
        runs(data, from, to, transparent)[i] <= TRANSPARENT,
    decreases to - from,
{
    if to > from {
        let head = runs(data, from, to - 1, transparent);
        if i < head.len() {
            lemma_runs_within_palette(data, from, to - 1, transparent, i);
        }
    }
}

/// Every cel that can be read is valid: it has as many pixels as its size
/// says, and each is a palette index.
pub proof fn lemma_cel_is_valid(data: Seq<u8>, at: int, is_mirrored: bool)
    ensures
        cel_at(data, at, is_mirrored) matches Ok(cel) ==> cel_is_valid(cel),
{
    if at + 7 <= data.len() {
        let width = le16(data, at) as nat;
        let height = le16(data, at + 2) as nat;
        let area = width * height;
        let stored = stored_pixels(data, at, area);
        let all = runs(data, at + 7, data.len() as int, data[at + 6]);
        assert forall|i: int| 0 <= i < stored.len() implies #[trigger] stored[i] <= TRANSPARENT by {
            if i < all.len() {
                lemma_runs_within_palette(data, at + 7, data.len() as int, data[at + 6], i);
            }
        }
        if is_mirrored {
            let turned = mirrored(stored, width);
            if width > 0 {
                let w = width as int;
                assert(stored.len() / width == height) by {
                    vstd::arithmetic::div_mod::lemma_div_multiples_vanish(height as int, w);
                    assert(width * height == w * (height as int));
                }
                assert(height * width == area) by (nonlinear_arith)
                    requires
                        area == width * height,
                ;
                assert forall|i: int| 0 <= i < turned.len() implies #[trigger] turned[i]
                    <= TRANSPARENT by {
                    let row = i / w;
                    let column = i % w;
                    vstd::arithmetic::div_mod::lemma_fundamental_div_mod(i, w);
                    assert(0 <= row < height) by (nonlinear_arith)
                        requires
                            0 <= i < height * w,
                            i == w * row + column,
                            0 <= column < w,
                    ;
                    let j = row * w + (w - 1 - column);
                    assert(0 <= j < area) by (nonlinear_arith)
                        requires
                            0 <= row < height,
                            0 <= column < w,
                            j == row * w + (w - 1 - column),
                            area == height * w,
                    ;
                    assert(turned[i] == stored[j]);
                }
            } else {
                assert(area == 0) by (nonlinear_arith)
                    requires
                        area == width * height,
                        width == 0,
                ;
            }
        }
    }
}

/// Reads two bytes as a number, low byte first.
fn parse_2_byte_le(data: &[u8], at: usize) -> (value: usize)
    requires
        at + 2 <= data@.len(),
    ensures
        value == le16(data@, at as int),
        value <= 0xffff,
{
    (data[at] as usize) + 256 * (data[at + 1] as usize)
}

/// Turns each row of `width` pixels left to right.
fn mirror(pixels: &[u8], width: usize) -> (out: Vec<u8>)
    requires
        width > 0,
    ensures
        out@ == mirrored(pixels@, width as nat),
{
    let rows = pixels.len() / width;
    let ghost w = width as int;
    assert(rows * width <= pixels@.len()) by (nonlinear_arith)
        requires
            rows == pixels@.len() / width as nat,
            width > 0,
    ;
    let mut out: Vec<u8> = Vec::with_capacity(pixels.len());
    let mut row: usize = 0;
    let mut base: usize = 0;
    while row < rows
        invariant
            width > 0,
            w == width,
            row <= rows,
            rows == pixels@.len() / width as nat,
            rows * width <= pixels@.len(),
            pixels@.len() == pixels.len(),
            base == row * width,
            out@.len() == base,
            forall|i: int|
                0 <= i < out@.len() ==> #[trigger] out@[i] == pixels@[(i / w) * w + (w - 1 - i
                    % w)],
        decreases rows - row,
    {
        let mut column: usize = 0;
        assert((row + 1) * width <= rows * width) by (nonlinear_arith)
            requires
                row < rows,
        ;
        assert((row + 1) * width == row * width + width) by (nonlinear_arith);
        while column < width
            invariant
                width > 0,
                w == width,
                row < rows,
                column <= width,
                base == row * width,
                base + width <= pixels@.len(),
                pixels@.len() == pixels.len(),
                out@.len() == base + column,
                forall|i: int|
                    0 <= i < out@.len() ==> #[trigger] out@[i] == pixels@[(i / w) * w + (w - 1 - i
                        % w)],
            decreases width - column,
        {
            let ghost i = out@.len() as int;
            proof {
                assert(i == row * w + column);
                vstd::arithmetic::div_mod::lemma_fundamental_div_mod_converse(
                    i,
                    w,
                    row as int,
                    column as int,
                );
            }
            out.push(pixels[base + (width - 1 - column)]);
            column += 1;
        }
        row += 1;
        base += width;
    }
    assert(out@ =~= mirrored(pixels@, width as nat));
    out
}

impl Cel {
    /// Reads the cel at byte `at` of a view: width and height, two
    /// placement bytes that are passed over, the transparent colour, and the
    /// runs of pixels.
    pub fn parse(data: &[u8], at: usize, is_mirrored: bool) -> (r: Result<Cel, DecodeError>)
        ensures
            r matches Ok(cel) ==> cel_at(data@, at as int, is_mirrored) == Ok::<
                CelModel,
                DecodeError,
            >(cel.model()),
            r matches Err(e) ==> cel_at(data@, at as int, is_mirrored) == Err::<
                CelModel,
                DecodeError,
            >(e),
            r matches Ok(cel) ==> cel_is_valid(cel.model()),
    {
        proof {
            lemma_cel_is_valid(data@, at as int, is_mirrored);
        }
        if data.len() < 7 || at > data.len() - 7 {
            return Err(DecodeError::TruncatedInput);
        }
        let width = parse_2_byte_le(data, at);
        let height = parse_2_byte_le(data, at + 2);
        let transparent_colour = data[at + 6];
        assert(width * height <= 0xffff * 0xffff) by (nonlinear_arith)
            requires
                width <= 0xffff,
                height <= 0xffff,
        ;
        let area = width * height;
        let ghost all = runs(data@, at + 7, data@.len() as int, transparent_colour);
        let mut pixels: Vec<u8> = Vec::new();
        let mut index: usize = at + 7;
        while index < data.len() && pixels.len() < area
            invariant
                at + 7 <= index <= data@.len(),
                pixels@.len() <= area,
                all == runs(data@, at + 7, data@.len() as int, transparent_colour),
                pixels@.len() < area ==> pixels@ == runs(
                    data@,
                    at + 7,
                    index as int,
                    transparent_colour,
                ),
                pixels@.len() <= all.len(),
                forall|i: int| 0 <= i < pixels@.len() ==> #[trigger] pixels@[i] == all[i],
            decreases data@.len() - index,
        {
            let b = data[index];
            let count = b >> 4;
            let raw_colour = b & 0xf;
            assert(count == b / 16 && raw_colour == b % 16) by (bit_vector)
                requires
                    count == b >> 4,
                    raw_colour == b & 0xf,
            ;
            let colour = if raw_colour == transparent_colour {
                TRANSPARENT
            } else {
                raw_colour
            };
            let ghost before = pixels@;
            let ghost upto = runs(data@, at + 7, index + 1, transparent_colour);
            proof {
                lemma_runs_len(data@, at + 7, index + 1, transparent_colour);
                if upto.len() > 0 {
                    lemma_runs_prefix(
                        data@,
                        at + 7,
                        index + 1,
                        data@.len() as int,
                        transparent_colour,
                        upto.len() - 1,
                    );
                }
                assert forall|i: int| 0 <= i < upto.len() implies all[i] == #[trigger] upto[i] by {
                    lemma_runs_prefix(
                        data@,
                        at + 7,
                        index + 1,
                        data@.len() as int,
                        transparent_colour,
                        i,
                    );
                }
                assert(upto =~= before + run_of(b, transparent_colour));
            }
            let mut j: u8 = 0;
            while j < count && pixels.len() < area
                invariant
                    j <= count,
                    count == b as int / 16,
                    pixels@.len() == before.len() + j,
                    pixels@.len() <= area,
                    before.len() + count == upto.len(),
                    upto == before + run_of(b, transparent_colour),
                    colour == cel_colour(b as int % 16, transparent_colour),
                    upto.len() <= all.len(),
                    forall|i: int| 0 <= i < upto.len() ==> all[i] == #[trigger] upto[i],
                    forall|i: int| 0 <= i < pixels@.len() ==> #[trigger] pixels@[i] == upto[i],
                decreases count - j,
            {
                pixels.push(colour);
                j += 1;
            }
            proof {
                assert(pixels@.len() <= upto.len());
                assert forall|i: int| 0 <= i < pixels@.len() implies #[trigger] pixels@[i]
                    == all[i] by {
                    assert(pixels@[i] == upto[i]);
                }
                if pixels@.len() < area {
                    assert(pixels@ =~= upto);
                }
            }
            index += 1;
        }
        proof {
            if pixels@.len() < area {
                assert(index == data@.len());
                assert(pixels@ == all);
            }
        }
        let ghost decoded = pixels@.len();
        while pixels.len() < area
            invariant
                decoded <= pixels@.len() <= area,
                decoded < area ==> decoded == all.len(),
                decoded <= all.len(),
                forall|i: int| 0 <= i < decoded ==> pixels@[i] == all[i],
                forall|i: int| decoded <= i < pixels@.len() ==> pixels@[i] == TRANSPARENT,
            decreases area - pixels@.len(),
        {
            pixels.push(TRANSPARENT);
        }
        assert(pixels@ =~= stored_pixels(data@, at as int, area as nat));
        if is_mirrored {
            if width > 0 {
                pixels = mirror(pixels.as_slice(), width);
            }
            proof {
                let stored = stored_pixels(data@, at as int, area as nat);
                if width > 0 {
                    assert(stored.len() / width as nat == height) by {
                        vstd::arithmetic::div_mod::lemma_div_multiples_vanish(
                            height as int,
                            width as int,
                        );
                        assert(width * height == width as int * height as int);
                    }
                    assert(height * width == area) by (nonlinear_arith)
                        requires
                            area == width * height,
                    ;
                } else {
                    assert(area == 0) by (nonlinear_arith)
                        requires
                            area == width * height,
                            width == 0,
                    ;
                    assert(pixels@ =~= mirrored(stored, 0));
                }
            }
        }
        Ok(Cel { width, height, pixels })
    }
}

impl Loop {
    /// Reads the loop at byte `at` of a view.
    pub fn parse(data: &[u8], at: usize, is_mirrored: bool) -> (r: Result<Loop, DecodeError>)
        ensures
            r matches Ok(view_loop) ==> loop_at(data@, at as int, is_mirrored) == Ok::<
                Seq<CelModel>,
                DecodeError,
            >(view_loop.model()),
            r matches Err(e) ==> loop_at(data@, at as int, is_mirrored) == Err::<
                Seq<CelModel>,
                DecodeError,
            >(e),
    {
        if data.len() < 4 || at > data.len() - 4 {
            return Err(DecodeError::TruncatedInput);
        }
        let count = parse_2_byte_le(data, at);
        // Bytes 2 and 3 are passed over.
        if (data.len() - 4 - at) / 2 < count {
            return Err(DecodeError::TruncatedInput);
        }
        let mut cels: Vec<Cel> = Vec::with_capacity(count);
        let mut i: usize = 0;
        assert(Seq::new(cels@.len(), |k: int| cels@[k].model()) =~= Seq::<CelModel>::empty());
        while i < count
            invariant
                i <= count,
                data@.len() == data.len(),
                count == le16(data@, at as int),
                at + 4 + 2 * count <= data@.len(),
                cels@.len() == i,
                cels_upto(data@, at as int, is_mirrored, i as nat) == Ok::<
                    Seq<CelModel>,
                    DecodeError,
                >(Seq::new(cels@.len(), |k: int| cels@[k].model())),
            decreases count - i,
        {
            let position = parse_2_byte_le(data, at + 4 + 2 * i);
            let ghost before = Seq::new(cels@.len(), |k: int| cels@[k].model());
            match Cel::parse(data, position, is_mirrored) {
                Ok(cel) => {
                    cels.push(cel);
                    assert(Seq::new(cels@.len(), |k: int| cels@[k].model()) =~= before.push(
                        cel.model(),
                    ));
                },
                Err(e) => {
                    proof {
                        lemma_cels_error_stays(
                            data@,
                            at as int,
                            is_mirrored,
                            (i + 1) as nat,
                            count as nat,
                        );
                    }
                    return Err(e);
                },
            }
            i += 1;
        }
        Ok(Loop { cels })
    }
}

/// Whether bit `i` of the mirror mask is set.
fn is_loop_mirrored(mirror_flags: usize, i: usize) -> (is_mirrored: bool)
    requires
        mirror_flags <= 0xffff,
    ensures
        is_mirrored == loop_is_mirrored(mirror_flags as int, i as int),
{
    if i >= 16 {
        return false;
    }
    let flags = mirror_flags as u16;
    let shift = i as u16;
    let shifted = flags >> shift;
    proof {
        vstd::bits::lemma_u16_shr_is_div(flags, shift);
        assert((shifted & 1 != 0) == (shifted % 2 == 1)) by (bit_vector);
    }
    (shifted & 1) != 0
}

impl View {
    /// Reads a view.
    ///
    /// Fails with `TruncatedInput` where the data end inside the header, a
    /// list of positions or the fixed part of a cel, or where a position
    /// points behind the data.
    pub fn parse(data: &[u8]) -> (r: Result<View, DecodeError>)
        ensures
            r matches Ok(view) ==> view_loops(data@) == Ok::<Seq<Seq<CelModel>>, DecodeError>(
                view.model(),
            ),
            r matches Err(e) ==> view_loops(data@) == Err::<Seq<Seq<CelModel>>, DecodeError>(e),
    {
        if data.len() < 4 {
            return Err(DecodeError::TruncatedInput);
        }
        let count = parse_2_byte_le(data, 0);
        let mirror_flags = parse_2_byte_le(data, 2);
        // Bytes 4 to 7 are passed over.
        let mut loops: Vec<Loop> = Vec::with_capacity(count);
        let mut i: usize = 0;
        assert(Seq::new(loops@.len(), |k: int| loops@[k].model()) =~= Seq::<
            Seq<CelModel>,
        >::empty());
        while i < count
            invariant
                i <= count,
                data@.len() == data.len(),
                count == le16(data@, 0),
                mirror_flags == le16(data@, 2),
                data@.len() >= 4,
                loops@.len() == i,
                loops_upto(data@, i as nat) == Ok::<Seq<Seq<CelModel>>, DecodeError>(
                    Seq::new(loops@.len(), |k: int| loops@[k].model()),
                ),
            decreases count - i,
        {
            let ghost before = Seq::new(loops@.len(), |k: int| loops@[k].model());
            // Where the loop starts:
            let offset = 8 + i * 2;
            if data.len() < offset + 2 {
                proof {
                    lemma_loops_error_stays(data@, (i + 1) as nat, count as nat);
                }
                return Err(DecodeError::TruncatedInput);
            }
            let position = parse_2_byte_le(data, offset);
            // The loop itself:
            let is_mirrored = is_loop_mirrored(mirror_flags, i);
            match Loop::parse(data, position, is_mirrored) {
                Ok(view_loop) => {
                    loops.push(view_loop);
                    assert(Seq::new(loops@.len(), |k: int| loops@[k].model()) =~= before.push(
                        view_loop.model(),
                    ));
                },
                Err(e) => {
                    proof {
                        lemma_loops_error_stays(data@, (i + 1) as nat, count as nat);
                    }
                    return Err(e);
                },
            }
            i += 1;
        }
        Ok(View { loops })
    }
}

} // verus!
