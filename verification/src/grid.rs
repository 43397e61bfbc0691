//! Row-major grids: where a cell lies in the flat sequence, and what
//! painting a set of cells does to the sequence.

use vstd::prelude::*;
use vstd::arithmetic::div_mod::{lemma_fundamental_div_mod, lemma_fundamental_div_mod_converse};

verus! {

/// Position of cell `(x, y)` in a row-major sequence whose rows hold
/// `width` cells.
pub open spec fn flat_index(width: int, x: int, y: int) -> int {
    y * width + x
}

/// Whether `(x, y)` names a cell of a `width` by `height` grid.
pub open spec fn in_grid(width: int, height: int, x: int, y: int) -> bool {
    0 <= x < width && 0 <= y < height
}

/// The cells of a row-major grid after every cell whose coordinates are in
/// `cells` has been given the colour `c`; the others keep theirs.
pub open spec fn paint(pixels: Seq<u32>, width: int, cells: Set<(int, int)>, c: u32) -> Seq<u32> {
    Seq::new(
        pixels.len(),
        |i: int|
            if cells.contains((i % width, i / width)) {
                c
            } else {
                pixels[i]
            },
    )
}

/// Every cell of the grid has its own position below `width * height`.
pub proof fn lemma_flat_index_bounds(width: int, height: int, x: int, y: int)
    requires
        in_grid(width, height, x, y),
    ensures
        0 <= flat_index(width, x, y) < width * height,
        0 <= y * width <= flat_index(width, x, y),
{
    assert(0 <= y * width && (y + 1) * width <= height * width && (y + 1) * width == y * width
        + width && height * width == width * height) by (nonlinear_arith)
        requires
            0 <= y < height,
            0 < width,
    ;
}

/// Two cells of one grid that share a position are the same cell.
pub proof fn lemma_flat_index_injective(width: int, x1: int, y1: int, x2: int, y2: int)
    requires
        0 <= x1 < width,
        0 <= x2 < width,
        flat_index(width, x1, y1) == flat_index(width, x2, y2),
    ensures
        x1 == x2,
        y1 == y2,
{
    assert(y1 == y2) by (nonlinear_arith)
        requires
            0 <= x1 < width,
            0 <= x2 < width,
            y1 * width + x1 == y2 * width + x2,
    ;
}

/// What `paint` leaves in one cell of the grid.
pub proof fn lemma_paint_cell(
    pixels: Seq<u32>,
    width: int,
    height: int,
    cells: Set<(int, int)>,
    c: u32,
    x: int,
    y: int,
)
    requires
        pixels.len() == width * height,
        in_grid(width, height, x, y),
    ensures
        paint(pixels, width, cells, c)[flat_index(width, x, y)] == if cells.contains((x, y)) {
            c
        } else {
            pixels[flat_index(width, x, y)]
        },
{
    lemma_flat_index_bounds(width, height, x, y);
    lemma_fundamental_div_mod_converse(flat_index(width, x, y), width, y, x);
}

/// Painting no cell changes nothing.
pub proof fn lemma_paint_nothing(pixels: Seq<u32>, width: int, c: u32)
    ensures
        paint(pixels, width, Set::empty(), c) == pixels,
{
    assert(paint(pixels, width, Set::empty(), c) =~= pixels);
}

/// Writing `c` to one more cell of a painted grid is painting one more cell.
pub proof fn lemma_paint_one_more(
    pixels: Seq<u32>,
    width: int,
    height: int,
    cells: Set<(int, int)>,
    c: u32,
    x: int,
    y: int,
)
    requires
        pixels.len() == width * height,
        in_grid(width, height, x, y),
    ensures
        paint(pixels, width, cells, c).update(flat_index(width, x, y), c) == paint(
            pixels,
            width,
            cells.insert((x, y)),
            c,
        ),
{
    let at = flat_index(width, x, y);
    lemma_flat_index_bounds(width, height, x, y);
    lemma_fundamental_div_mod_converse(at, width, y, x);
    let before = paint(pixels, width, cells, c).update(at, c);
    let after = paint(pixels, width, cells.insert((x, y)), c);
    assert forall|i: int| 0 <= i < before.len() implies before[i] == after[i] by {
        if i != at {
            lemma_fundamental_div_mod(i, width);
            assert(width * (i / width) == (i / width) * width) by (nonlinear_arith);
            assert((i % width, i / width) != (x, y));
        }
    }
    assert(before =~= after);
}

/// Painting two sets of cells in turn with one colour is painting their
/// union.
pub proof fn lemma_paint_union(
    pixels: Seq<u32>,
    width: int,
    first: Set<(int, int)>,
    second: Set<(int, int)>,
    c: u32,
)
    ensures
        paint(paint(pixels, width, first, c), width, second, c) == paint(
            pixels,
            width,
            first.union(second),
            c,
        ),
{
    assert(paint(paint(pixels, width, first, c), width, second, c) =~= paint(
        pixels,
        width,
        first.union(second),
        c,
    ));
}

} // verus!
