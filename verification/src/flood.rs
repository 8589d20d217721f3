//! Flood fill: colours the white area around a seed.
//!
//! The area is what can be reached from the seed by steps to the left, right,
//! upper and lower neighbour over white pixels only. The fill keeps a work
//! list in place of recursion.

use vstd::prelude::*;
use vstd::set_lib::*;
use crate::canvas::{
    WIDTH,
    HEIGHT,
    PIXELS,
    on_canvas,
    pixel_index,
    column_of,
    row_of,
    paint,
    lemma_pixel_index,
    lemma_pixel_point,
};
use crate::palette::WHITE;

verus! {

/// Whether two positions of the buffer are neighbours in a row or in a
/// column of the canvas.
pub open spec fn adjacent(a: int, b: int) -> bool {
    &&& 0 <= a < PIXELS
    &&& 0 <= b < PIXELS
    &&& {
        ||| row_of(a) == row_of(b) && column_of(a) == column_of(b) + 1
        ||| row_of(a) == row_of(b) && column_of(b) == column_of(a) + 1
        ||| column_of(a) == column_of(b) && row_of(a) == row_of(b) + 1
        ||| column_of(a) == column_of(b) && row_of(b) == row_of(a) + 1
    }
}

/// A run of white pixels in which each is a neighbour of the next.
pub open spec fn is_white_path(canvas: Seq<u8>, path: Seq<int>) -> bool {
    &&& path.len() > 0
    &&& forall|j: int|
        0 <= j < path.len() ==> 0 <= #[trigger] path[j] < PIXELS && canvas[path[j]] == WHITE
    &&& forall|j: int| 0 <= j < path.len() - 1 ==> #[trigger] adjacent(path[j], path[j + 1])
}

/// Whether a white path leads from `from` to `to`.
pub open spec fn connected(canvas: Seq<u8>, from: int, to: int) -> bool {
    exists|path: Seq<int>|
        #[trigger] is_white_path(canvas, path) && path[0] == from && path.last() == to
}

/// The white area around the seed; empty where the seed is not white.
pub open spec fn fill_region(canvas: Seq<u8>, seed: int) -> Set<int> {
    Set::new(|i: int| connected(canvas, seed, i))
}

/// The canvas after a fill from `(x, y)`. A seed off the canvas fills
/// nothing.
pub open spec fn fill_canvas(canvas: Seq<u8>, colour: u8, x: int, y: int) -> Seq<u8> {
    if on_canvas(x, y) {
        paint(canvas, fill_region(canvas, pixel_index(x, y)), colour)
    } else {
        canvas
    }
}

/// Whether the work list holds the position `b`.
pub open spec fn pending(queue: Seq<(usize, usize)>, b: int) -> bool {
    exists|j: int|
        0 <= j < queue.len() && pixel_index((#[trigger] queue[j]).0 as int, queue[j].1 as int) == b
}

/// A white pixel is connected to itself.
pub proof fn lemma_connected_self(canvas: Seq<u8>, a: int)
    requires
        0 <= a < PIXELS,
        canvas[a] == WHITE,
    ensures
        connected(canvas, a, a),
{
    let path = seq![a];
    assert(is_white_path(canvas, path));
    assert(path[0] == a && path.last() == a);
}

/// A white neighbour of a connected pixel is connected.
pub proof fn lemma_connected_step(canvas: Seq<u8>, seed: int, a: int, b: int)
    requires
        connected(canvas, seed, a),
        adjacent(a, b),
        canvas[b] == WHITE,
    ensures
        connected(canvas, seed, b),
{
    let path = choose|path: Seq<int>|
        #[trigger] is_white_path(canvas, path) && path[0] == seed && path.last() == a;
    let longer = path.push(b);
    assert forall|j: int| 0 <= j < longer.len() - 1 implies #[trigger] adjacent(
        longer[j],
        longer[j + 1],
    ) by {
        if j < path.len() - 1 {
            assert(adjacent(path[j], path[j + 1]));
        }
    }
    assert(is_white_path(canvas, longer));
    assert(longer[0] == seed && longer.last() == b);
}

/// A set that holds its own white neighbours holds every pixel of a white
/// path that starts in it.
pub proof fn lemma_closed_holds_path(canvas: Seq<u8>, filled: Set<int>, path: Seq<int>, n: int)
    requires
        is_white_path(canvas, path),
        filled.contains(path[0]),
        forall|a: int, b: int|
            filled.contains(a) && #[trigger] adjacent(a, b) && canvas[b] == WHITE
                ==> filled.contains(b),
        0 <= n < path.len(),
    ensures
        filled.contains(path[n]),
    decreases n,
{
    if n > 0 {
        lemma_closed_holds_path(canvas, filled, path, n - 1);
        assert(adjacent(path[n - 1], path[n - 1 + 1]));
    }
}

/// A fill stays inside its enclosure. Let `enclosure` hold the seed, and let
/// every white neighbour of one of its pixels belong to it too, so that only
/// pixels that are not white, or the canvas edge, bound it. Then the fill
/// changes no pixel outside the enclosure, and inside it colours exactly the
/// white pixels connected to the seed.
pub proof fn lemma_fill_stays_enclosed(
    canvas: Seq<u8>,
    colour: u8,
    x: int,
    y: int,
    enclosure: Set<int>,
)
    requires
        canvas.len() == PIXELS,
        on_canvas(x, y),
        enclosure.contains(pixel_index(x, y)),
        forall|a: int, b: int|
            enclosure.contains(a) && #[trigger] adjacent(a, b) && canvas[b] == WHITE
                ==> enclosure.contains(b),
    ensures
        fill_canvas(canvas, colour, x, y).len() == PIXELS,
        forall|i: int|
            0 <= i < PIXELS && !enclosure.contains(i) ==> fill_canvas(canvas, colour, x, y)[i]
                == canvas[i],
        forall|i: int|
            0 <= i < PIXELS && enclosure.contains(i) ==> fill_canvas(canvas, colour, x, y)[i] == (
            if connected(canvas, pixel_index(x, y), i) {
                colour
            } else {
                canvas[i]
            }),
{
    let seed = pixel_index(x, y);
    assert forall|i: int| 0 <= i < PIXELS && !enclosure.contains(i) implies !connected(
        canvas,
        seed,
        i,
    ) by {
        if connected(canvas, seed, i) {
            let path = choose|path: Seq<int>|
                #[trigger] is_white_path(canvas, path) && path[0] == seed && path.last() == i;
            lemma_closed_holds_path(canvas, enclosure, path, path.len() - 1);
        }
    }
}

/// Fills the white area around `(x, y)` with `colour`.
pub fn fill_from(picture: &mut Vec<u8>, colour: u8, x: usize, y: usize)
    requires
        old(picture)@.len() == PIXELS,
    ensures
        final(picture)@ == fill_canvas(old(picture)@, colour, x as int, y as int),
{
    if x >= WIDTH || y >= HEIGHT {
        return ;
    }
    let ghost before = picture@;
    let ghost seed = pixel_index(x as int, y as int);
    if colour == WHITE {
        proof {
            assert forall|i: int| 0 <= i < PIXELS && connected(before, seed, i) implies before[i]
                == WHITE by {
                let path = choose|path: Seq<int>|
                    #[trigger] is_white_path(before, path) && path[0] == seed && path.last() == i;
                assert(path[path.len() - 1] == i);
            }
            assert(picture@ =~= fill_canvas(before, colour, x as int, y as int));
        }
        return ;
    }
    let mut queue: Vec<(usize, usize)> = Vec::new();
    queue.push((x, y));
    let ghost mut filled: Set<int> = Set::empty();
    proof {
        lemma_pixel_index(x as int, y as int);
        assert(pending(queue@, seed)) by {
            assert(pixel_index(queue@[0].0 as int, queue@[0].1 as int) == seed);
        }
        if before[seed] == WHITE {
            lemma_connected_self(before, seed);
        }
    }
    while queue.len() > 0
        invariant
            picture@.len() == PIXELS,
            before.len() == PIXELS,
            colour != WHITE,
            0 <= seed < PIXELS,
            filled.finite(),
            forall|i: int|
                filled.contains(i) ==> 0 <= i < PIXELS && before[i] == WHITE && connected(
                    before,
                    seed,
                    i,
                ),
            forall|i: int|
                0 <= i < PIXELS ==> picture@[i] == (if filled.contains(i) {
                    colour
                } else {
                    before[i]
                }),
            forall|j: int|
                0 <= j < queue@.len() ==> on_canvas(
                    (#[trigger] queue@[j]).0 as int,
                    queue@[j].1 as int,
                ) && (before[pixel_index(queue@[j].0 as int, queue@[j].1 as int)] == WHITE
                    ==> connected(
                    before,
                    seed,
                    pixel_index(queue@[j].0 as int, queue@[j].1 as int),
                )),
            forall|a: int, b: int|
                filled.contains(a) && #[trigger] adjacent(a, b) && before[b] == WHITE
                    ==> filled.contains(b) || pending(queue@, b),
            before[seed] == WHITE ==> filled.contains(seed) || pending(queue@, seed),
        decreases PIXELS - filled.len(), queue@.len(),
    {
        let ghost old_queue = queue@;
        let ghost old_filled = filled;
        let (px, py) = queue.pop().unwrap();
        let ghost p = pixel_index(px as int, py as int);
        proof {
            assert(old_queue[old_queue.len() - 1] == (px, py));
            lemma_pixel_index(px as int, py as int);
            lemma_int_range(0, PIXELS as int);
            assert(filled.subset_of(set_int_range(0, PIXELS as int)));
            lemma_len_subset(filled, set_int_range(0, PIXELS as int));
            // What was pending is still pending, or it is the pixel taken.
            assert forall|b: int| pending(old_queue, b) implies pending(queue@, b) || b == p by {
                let j = choose|j: int|
                    0 <= j < old_queue.len() && pixel_index(
                        (#[trigger] old_queue[j]).0 as int,
                        old_queue[j].1 as int,
                    ) == b;
                if j < queue@.len() {
                    assert(queue@[j] == old_queue[j]);
                }
            }
        }
        let offset = py * WIDTH + px;
        if picture[offset] != WHITE {
            continue ;
        }
        picture[offset] = colour;
        proof {
            filled = filled.insert(p);
            assert(!old_filled.contains(p));
            assert(filled.len() == old_filled.len() + 1);
            assert(filled.subset_of(set_int_range(0, PIXELS as int)));
            lemma_len_subset(filled, set_int_range(0, PIXELS as int));
        }
        let ghost base = queue@;
        if px > 0 {
            queue.push((px - 1, py));
        }
        if px < WIDTH - 1 {
            queue.push((px + 1, py));
        }
        if py > 0 {
            queue.push((px, py - 1));
        }
        if py < HEIGHT - 1 {
            queue.push((px, py + 1));
        }
        proof {
            let grown = queue@;
            assert(base.len() <= grown.len() <= base.len() + 4);
            assert forall|j: int| 0 <= j < base.len() implies grown[j] == base[j] by {}
            // Every entry lies on the canvas and is connected if white.
            assert forall|j: int| 0 <= j < grown.len() implies on_canvas(
                (#[trigger] grown[j]).0 as int,
                grown[j].1 as int,
            ) && (before[pixel_index(grown[j].0 as int, grown[j].1 as int)] == WHITE ==> connected(
                before,
                seed,
                pixel_index(grown[j].0 as int, grown[j].1 as int),
            )) by {
                if j >= base.len() {
                    let b = pixel_index(grown[j].0 as int, grown[j].1 as int);
                    lemma_pixel_index(grown[j].0 as int, grown[j].1 as int);
                    assert(adjacent(p, b));
                    if before[b] == WHITE {
                        lemma_connected_step(before, seed, p, b);
                    }
                } else {
                    assert(grown[j] == base[j]);
                }
            }
            // What was pending stays pending.
            assert forall|b: int| pending(base, b) implies pending(grown, b) by {
                let j = choose|j: int|
                    0 <= j < base.len() && pixel_index(
                        (#[trigger] base[j]).0 as int,
                        base[j].1 as int,
                    ) == b;
                assert(grown[j] == base[j]);
            }
            // The neighbours of the new pixel are pending.
            assert forall|a: int, b: int|
                filled.contains(a) && #[trigger] adjacent(a, b) && before[b] == WHITE implies (
                filled.contains(b) || pending(grown, b)) by {
                if a == p {
                    lemma_pixel_point(b);
                    let bx = column_of(b);
                    let by = row_of(b);
                    let j = if bx == px - 1 {
                        base.len() as int
                    } else if bx == px + 1 {
                        base.len() + (if px > 0 { 1int } else { 0int })
                    } else if by == py - 1 {
                        base.len() + (if px > 0 { 1int } else { 0int }) + (if px < WIDTH - 1 {
                            1int
                        } else {
                            0int
                        })
                    } else {
                        grown.len() - 1
                    };
                    assert(0 <= j < grown.len());
                    assert(grown[j] == (bx as usize, by as usize));
                    assert(pixel_index(grown[j].0 as int, grown[j].1 as int) == b);
                } else {
                    assert(old_filled.contains(a));
                    if !old_filled.contains(b) {
                        assert(pending(old_queue, b));
                    }
                }
            }
            if before[seed] == WHITE && !old_filled.contains(seed) {
                assert(pending(old_queue, seed));
            }
        }
    }
    proof {
        assert forall|i: int| 0 <= i < PIXELS implies (filled.contains(i) <==> connected(
            before,
            seed,
            i,
        )) by {
            if connected(before, seed, i) {
                let path = choose|path: Seq<int>|
                    #[trigger] is_white_path(before, path) && path[0] == seed && path.last() == i;
                assert(before[path[0]] == WHITE);
                assert(!pending(queue@, seed));
                assert forall|a: int, b: int|
                    filled.contains(a) && #[trigger] adjacent(a, b) && before[b]
                        == WHITE implies filled.contains(b) by {
                    assert(!pending(queue@, b));
                }
                lemma_closed_holds_path(before, filled, path, path.len() - 1);
            }
        }
        assert(picture@ =~= fill_canvas(before, colour, x as int, y as int));
    }
}

} // verus!
