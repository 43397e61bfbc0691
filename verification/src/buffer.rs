//! The pixel buffer: a grid of packed colours with cell access, bulk clear
//! and fill, and line, triangle and quadrilateral outlines in pixel
//! coordinates, where x counts columns from the left and y rows from the top.

use vstd::prelude::*;
use crate::bresenham::{
    heading, lemma_line_offsets, lemma_line_prefix_step, lemma_line_single, lemma_line_start,
    lemma_line_step, line_points, line_prefix, line_state, line_steps, quad_points, span,
    triangle_points,
};
use crate::colors::Colors;
use crate::grid::{
    flat_index, in_grid, lemma_flat_index_bounds, lemma_flat_index_injective, lemma_paint_cell,
    lemma_paint_nothing, lemma_paint_one_more, lemma_paint_union, paint,
};

verus! {

/// The coordinates of a cell as mathematical integers.
pub open spec fn cell(p: (usize, usize)) -> (int, int) {
    (p.0 as int, p.1 as int)
}

/// A fixed-size grid of packed colours, stored row by row from the top,
/// together with the colour that drawing operations use.
pub struct Buffer {
    buf: Vec<u32>,
    width: usize,
    height: usize,
    color: u32,
}

impl Buffer {
    #[verifier::type_invariant]
    spec fn well_formed(&self) -> bool {
        self.buf@.len() == self.width * self.height <= usize::MAX
    }

    /// The cells, row by row from the top, each row from the left.
    pub closed spec fn view(&self) -> Seq<u32> {
        self.buf@
    }

    /// Number of columns.
    pub closed spec fn width(&self) -> int {
        self.width as int
    }

    /// Number of rows.
    pub closed spec fn height(&self) -> int {
        self.height as int
    }

    /// The colour that drawing operations write.
    pub closed spec fn draw_color(&self) -> u32 {
        self.color
    }

    /// Whether `(x, y)` names a cell of this buffer.
    pub open spec fn contains(&self, x: int, y: int) -> bool {
        in_grid(self.width(), self.height(), x, y)
    }

    /// The colour of cell `(x, y)`.
    pub open spec fn pixel_at(&self, x: int, y: int) -> u32 {
        self@[flat_index(self.width(), x, y)]
    }

    /// Whether `self` is `before` after a drawing operation that covers
    /// `cells`: the size and the draw colour are kept, the covered cells
    /// have the draw colour, and every other cell keeps its colour.
    pub open spec fn drawn_over(&self, before: Buffer, cells: Set<(int, int)>) -> bool {
        &&& self.width() == before.width()
        &&& self.height() == before.height()
        &&& self.draw_color() == before.draw_color()
        &&& self@ == paint(before@, before.width(), cells, before.draw_color())
        &&& forall|x: int, y: int|
            before.contains(x, y) ==> #[trigger] self.pixel_at(x, y) == if cells.contains(
                (x, y),
            ) {
                before.draw_color()
            } else {
                before.pixel_at(x, y)
            }
    }

    proof fn lemma_drawn_over(&self, before: Buffer, cells: Set<(int, int)>)
        requires
            before@.len() == before.width() * before.height(),
            self.width() == before.width(),
            self.height() == before.height(),
            self.draw_color() == before.draw_color(),
            self@ == paint(before@, before.width(), cells, before.draw_color()),
        ensures
            self.drawn_over(before, cells),
    {
        assert forall|x: int, y: int| before.contains(x, y) implies #[trigger] self.pixel_at(x, y)
            == if cells.contains((x, y)) {
            before.draw_color()
        } else {
            before.pixel_at(x, y)
        } by {
            lemma_paint_cell(
                before@,
                before.width(),
                before.height(),
                cells,
                before.draw_color(),
                x,
                y,
            );
        }
    }

    /// A black buffer of the given size whose draw colour is white.
    pub fn new(width: usize, height: usize) -> (b: Buffer)
        requires
            width * height <= usize::MAX,
        ensures
            b.width() == width,
            b.height() == height,
            b.draw_color() == Colors::WHITE,
            b@ == Seq::new((width * height) as nat, |i: int| 0u32),
            forall|x: int, y: int| b.contains(x, y) ==> b.pixel_at(x, y) == 0,
    {
        let b = Buffer { buf: vec![0; width * height], width, height, color: Colors::WHITE };
        proof {
            assert forall|x: int, y: int| b.contains(x, y) implies b.pixel_at(x, y) == 0 by {
                lemma_flat_index_bounds(width as int, height as int, x, y);
            }
        }
        b
    }

    /// The dimensions as `(width, height)`; the buffer holds exactly
    /// `width * height` cells.
    pub fn size(&self) -> (s: (usize, usize))
        ensures
            s.0 == self.width(),
            s.1 == self.height(),
            self@.len() == s.0 * s.1,
    {
        proof {
            use_type_invariant(self);
        }
        (self.width, self.height)
    }

    /// The current draw colour.
    pub fn color(&self) -> (c: u32)
        ensures
            c == self.draw_color(),
    {
        self.color
    }

    /// Changes the draw colour for later drawing; no cell changes.
    pub fn set_color(&mut self, color: u32)
        ensures
            final(self).draw_color() == color,
            final(self)@ == old(self)@,
            final(self).width() == old(self).width(),
            final(self).height() == old(self).height(),
    {
        proof {
            use_type_invariant(&*self);
        }
        self.color = color;
    }

    /// Reads cell `(x, y)`.
    pub fn get(&self, x: usize, y: usize) -> (c: u32)
        requires
            self.contains(x as int, y as int),
        ensures
            c == self.pixel_at(x as int, y as int),
    {
        proof {
            use_type_invariant(self);
            lemma_flat_index_bounds(self.width as int, self.height as int, x as int, y as int);
        }
        vstd::pervasive::runtime_assert(x < self.width && y < self.height);
        self.buf[(y * self.width) + x]
    }

    /// Writes `value` to cell `(x, y)` and to no other cell.
    pub fn set(&mut self, x: usize, y: usize, value: u32)
        requires
            old(self).contains(x as int, y as int),
        ensures
            final(self)@ == old(self)@.update(
                flat_index(old(self).width(), x as int, y as int),
                value,
            ),
            final(self).pixel_at(x as int, y as int) == value,
            forall|i: int, j: int|
                old(self).contains(i, j) && (i, j) != (x as int, y as int) ==> final(self).pixel_at(
                    i,
                    j,
                ) == old(self).pixel_at(i, j),
            final(self).width() == old(self).width(),
            final(self).height() == old(self).height(),
            final(self).draw_color() == old(self).draw_color(),
    {
        proof {
            use_type_invariant(&*self);
            lemma_flat_index_bounds(self.width as int, self.height as int, x as int, y as int);
        }
        vstd::pervasive::runtime_assert(x < self.width && y < self.height);
        let index: usize = (y * self.width) + x;
        self.buf[index] = value;
        proof {
            assert forall|i: int, j: int|
                old(self).contains(i, j) && (i, j) != (x as int, y as int) implies self.pixel_at(
                i,
                j,
            ) == old(self).pixel_at(i, j) by {
                if flat_index(self.width as int, i, j) == index {
                    lemma_flat_index_injective(self.width as int, i, j, x as int, y as int);
                }
                lemma_flat_index_bounds(self.width as int, self.height as int, i, j);
            }
        }
    }

    /// Sets every cell to black, whatever the draw colour is.
    pub fn clear(&mut self)
        ensures
            final(self)@ == Seq::new(old(self)@.len(), |i: int| 0u32),
            forall|x: int, y: int| final(self).contains(x, y) ==> final(self).pixel_at(x, y) == 0,
            final(self).width() == old(self).width(),
            final(self).height() == old(self).height(),
            final(self).draw_color() == old(self).draw_color(),
    {
        self.fill_with(0);
    }

    /// Sets every cell to the draw colour.
    pub fn fill(&mut self)
        ensures
            final(self)@ == Seq::new(old(self)@.len(), |i: int| old(self).draw_color()),
            forall|x: int, y: int|
                final(self).contains(x, y) ==> final(self).pixel_at(x, y) == old(self).draw_color(),
            final(self).width() == old(self).width(),
            final(self).height() == old(self).height(),
            final(self).draw_color() == old(self).draw_color(),
    {
        let color: u32 = self.color;
        self.fill_with(color);
    }

    fn fill_with(&mut self, value: u32)
        ensures
            final(self)@ == Seq::new(old(self)@.len(), |i: int| value),
            forall|x: int, y: int|
                final(self).contains(x, y) ==> final(self).pixel_at(x, y) == value,
            final(self).width() == old(self).width(),
            final(self).height() == old(self).height(),
            final(self).draw_color() == old(self).draw_color(),
    {
        proof {
            use_type_invariant(&*self);
        }
        let n: usize = self.buf.len();
        let mut i: usize = 0;
        while i < n
            invariant
                i <= n,
                n == self.buf@.len(),
                self.buf@.len() == old(self).buf@.len(),
                self.buf@.len() == self.width * self.height <= usize::MAX,
                self.width == old(self).width,
                self.height == old(self).height,
                self.color == old(self).color,
                forall|j: int| 0 <= j < i ==> self.buf@[j] == value,
            decreases n - i,
        {
            self.buf[i] = value;
            i += 1;
        }
        proof {
            assert forall|x: int, y: int| self.contains(x, y) implies self.pixel_at(x, y)
                == value by {
                lemma_flat_index_bounds(self.width as int, self.height as int, x, y);
            }
        }
    }

    /// Sets cell `index` to the draw colour.
    pub fn pixel(&mut self, index: (usize, usize))
        requires
            old(self).contains(index.0 as int, index.1 as int),
        ensures
            final(self).drawn_over(*old(self), set![cell(index)]),
            final(self)@ == old(self)@.update(
                flat_index(old(self).width(), index.0 as int, index.1 as int),
                old(self).draw_color(),
            ),
    {
        proof {
            use_type_invariant(&*self);
        }
        let color: u32 = self.color;
        self.set(index.0, index.1, color);
        proof {
            let w = self.width as int;
            lemma_paint_nothing(old(self)@, w, color);
            lemma_paint_one_more(
                old(self)@,
                w,
                self.height as int,
                Set::empty(),
                color,
                index.0 as int,
                index.1 as int,
            );
            assert(Set::<(int, int)>::empty().insert(cell(index)) =~= set![cell(index)]);
            self.lemma_drawn_over(*old(self), set![cell(index)]);
        }
    }

    /// Draws the segment from `p1` to `p2` in the draw colour, both ends
    /// included. The cells are found by the incremental rule: a decision
    /// variable starts at `dx + dy`, with `dx` the extent along x and `dy`
    /// the negated extent along y; a move advances along x when twice the
    /// variable is at least `dy`, and along y when it is at most `dx`.
    pub fn line(&mut self, p1: (usize, usize), p2: (usize, usize))
        requires
            old(self).contains(p1.0 as int, p1.1 as int),
            old(self).contains(p2.0 as int, p2.1 as int),
        ensures
            final(self).drawn_over(*old(self), line_points(cell(p1), cell(p2))),
            p1 == p2 ==> final(self)@ == old(self)@.update(
                flat_index(old(self).width(), p1.0 as int, p1.1 as int),
                old(self).draw_color(),
            ),
    {
        let (x1, y1, x2, y2): (i128, i128, i128, i128) = (
            p1.0 as i128,
            p1.1 as i128,
            p2.0 as i128,
            p2.1 as i128,
        );
        let dx: i128 = if x1 < x2 { x2 - x1 } else { x1 - x2 };
        let sx: i128 = if x1 < x2 { 1 } else { -1 };
        let dy: i128 = if y1 < y2 { y1 - y2 } else { y2 - y1 };
        let sy: i128 = if y1 < y2 { 1 } else { -1 };
        let (mut x, mut y): (i128, i128) = (x1, y1);
        let mut error: i128 = dx + dy;
        let ghost p = cell(p1);
        let ghost q = cell(p2);
        let ghost mut k: int = 0;
        proof {
            use_type_invariant(&*self);
            lemma_line_start(p, q);
            lemma_line_prefix_step(p, q, 0);
            lemma_paint_nothing(self@, self.width as int, self.color);
        }
        loop
            invariant_except_break
                0 <= k <= line_steps(p, q),
                (x as int, y as int, error as int) == line_state(p, q, k),
                self@ == paint(old(self)@, self.width as int, line_prefix(p, q, k), self.color),
            invariant
                p == cell(p1),
                q == cell(p2),
                x1 == p1.0 && y1 == p1.1 && x2 == p2.0 && y2 == p2.1,
                self.contains(p1.0 as int, p1.1 as int),
                self.contains(p2.0 as int, p2.1 as int),
                dx == span(x1 as int, x2 as int),
                dy == -span(y1 as int, y2 as int),
                sx == heading(x1 as int, x2 as int),
                sy == heading(y1 as int, y2 as int),
                2 * dy <= error <= 2 * dx,
                self@.len() == self.width * self.height,
                self.width == old(self).width,
                self.height == old(self).height,
                self.color == old(self).color,
            ensures
                self@ == paint(old(self)@, self.width as int, line_points(p, q), self.color),
            decreases line_steps(p, q) - k,
        {
            proof {
                lemma_line_offsets(p, q, k);
                lemma_line_prefix_step(p, q, k);
                lemma_paint_one_more(
                    old(self)@,
                    self.width as int,
                    self.height as int,
                    line_prefix(p, q, k),
                    self.color,
                    x as int,
                    y as int,
                );
            }
            self.pixel((x as usize, y as usize));
            if x == x2 && y == y2 {
                break ;
            }
            proof {
                lemma_line_step(p, q, k);
            }
            let e2: i128 = 2 * error;
            if e2 >= dy {
                // A move along x starts short of x2, so this exit is never taken.
                if x == x2 {
                    break ;
                }
                error += dy;
                x += sx;
            }
            if e2 <= dx {
                // Likewise along y.
                if y == y2 {
                    break ;
                }
                error += dx;
                y += sy;
            }
            proof {
                k = k + 1;
            }
        }
        proof {
            self.lemma_drawn_over(*old(self), line_points(p, q));
            if p1 == p2 {
                lemma_line_single(p);
                lemma_paint_nothing(old(self)@, self.width as int, self.color);
                lemma_paint_one_more(
                    old(self)@,
                    self.width as int,
                    self.height as int,
                    Set::empty(),
                    self.color,
                    p.0,
                    p.1,
                );
                assert(Set::<(int, int)>::empty().insert(p) =~= set![p]);
            }
        }
    }

    /// Draws the outline of a triangle: the segments `p1` to `p2`, `p2` to
    /// `p3` and `p3` back to `p1`.
    pub fn tri(&mut self, p1: (usize, usize), p2: (usize, usize), p3: (usize, usize))
        requires
            old(self).contains(p1.0 as int, p1.1 as int),
            old(self).contains(p2.0 as int, p2.1 as int),
            old(self).contains(p3.0 as int, p3.1 as int),
        ensures
            final(self).drawn_over(*old(self), triangle_points(cell(p1), cell(p2), cell(p3))),
    {
        proof {
            use_type_invariant(&*self);
        }
        self.line(p1, p2);
        self.line(p2, p3);
        self.line(p3, p1);
        proof {
            let w = self.width as int;
            let c = self.color;
            let a = line_points(cell(p1), cell(p2));
            let b = line_points(cell(p2), cell(p3));
            let d = line_points(cell(p3), cell(p1));
            lemma_paint_union(old(self)@, w, a, b, c);
            lemma_paint_union(old(self)@, w, a.union(b), d, c);
            self.lemma_drawn_over(*old(self), triangle_points(cell(p1), cell(p2), cell(p3)));
        }
    }

    /// Draws the outline of a quadrilateral: the segments `p1` to `p2`,
    /// `p2` to `p3`, `p3` to `p4` and `p4` back to `p1`, for any four cells
    /// in the order given.
    pub fn sqr(
        &mut self,
        p1: (usize, usize),
        p2: (usize, usize),
        p3: (usize, usize),
        p4: (usize, usize),
    )
        requires
            old(self).contains(p1.0 as int, p1.1 as int),
            old(self).contains(p2.0 as int, p2.1 as int),
            old(self).contains(p3.0 as int, p3.1 as int),
            old(self).contains(p4.0 as int, p4.1 as int),
        ensures
            final(self).drawn_over(
                *old(self),
                quad_points(cell(p1), cell(p2), cell(p3), cell(p4)),
            ),
    {
        proof {
            use_type_invariant(&*self);
        }
        self.line(p1, p2);
        self.line(p2, p3);
        self.line(p3, p4);
        self.line(p4, p1);
        proof {
            let w = self.width as int;
            let c = self.color;
            let a = line_points(cell(p1), cell(p2));
            let b = line_points(cell(p2), cell(p3));
            let d = line_points(cell(p3), cell(p4));
            let e = line_points(cell(p4), cell(p1));
            lemma_paint_union(old(self)@, w, a, b, c);
            lemma_paint_union(old(self)@, w, a.union(b), d, c);
            lemma_paint_union(old(self)@, w, a.union(b).union(d), e, c);
            self.lemma_drawn_over(
                *old(self),
                quad_points(cell(p1), cell(p2), cell(p3), cell(p4)),
            );
        }
    }

    /// Drawing the three sides of a triangle one after another leaves the
    /// cells that drawing its outline leaves.
    pub proof fn lemma_three_lines_are_a_triangle(
        start: Buffer,
        first: Buffer,
        second: Buffer,
        third: Buffer,
        outline: Buffer,
        p1: (int, int),
        p2: (int, int),
        p3: (int, int),
    )
        requires
            first.drawn_over(start, line_points(p1, p2)),
            second.drawn_over(first, line_points(p2, p3)),
            third.drawn_over(second, line_points(p3, p1)),
            outline.drawn_over(start, triangle_points(p1, p2, p3)),
        ensures
            third@ == outline@,
            third.drawn_over(start, triangle_points(p1, p2, p3)),
    {
        let w = start.width();
        let c = start.draw_color();
        let a = line_points(p1, p2);
        let b = line_points(p2, p3);
        lemma_paint_union(start@, w, a, b, c);
        lemma_paint_union(start@, w, a.union(b), line_points(p3, p1), c);
        assert forall|x: int, y: int| start.contains(x, y) implies #[trigger] third.pixel_at(x, y)
            == outline.pixel_at(x, y) by {}
    }

    /// Drawing the four sides of a quadrilateral one after another leaves
    /// the cells that drawing its outline leaves.
    pub proof fn lemma_four_lines_are_a_quad(
        start: Buffer,
        first: Buffer,
        second: Buffer,
        third: Buffer,
        fourth: Buffer,
        outline: Buffer,
        p1: (int, int),
        p2: (int, int),
        p3: (int, int),
        p4: (int, int),
    )
        requires
            first.drawn_over(start, line_points(p1, p2)),
            second.drawn_over(first, line_points(p2, p3)),
            third.drawn_over(second, line_points(p3, p4)),
            fourth.drawn_over(third, line_points(p4, p1)),
            outline.drawn_over(start, quad_points(p1, p2, p3, p4)),
        ensures
            fourth@ == outline@,
            fourth.drawn_over(start, quad_points(p1, p2, p3, p4)),
    {
        let w = start.width();
        let c = start.draw_color();
        let a = line_points(p1, p2);
        let b = line_points(p2, p3);
        let d = line_points(p3, p4);
        lemma_paint_union(start@, w, a, b, c);
        lemma_paint_union(start@, w, a.union(b), d, c);
        lemma_paint_union(start@, w, a.union(b).union(d), line_points(p4, p1), c);
        assert forall|x: int, y: int|
            start.contains(x, y) implies #[trigger] fourth.pixel_at(x, y) == outline.pixel_at(
            x,
            y,
        ) by {}
    }

    /// The cells as a slice, row by row from the top.
    pub fn as_slice(&self) -> (s: &[u32])
        ensures
            s@ == self@,
    {
        self.buf.as_slice()
    }
}

} // verus!
