//! The canvas: a buffer addressed with y growing upwards.

use vstd::prelude::*;
use crate::bresenham::{line_points, quad_points, triangle_points};
use crate::buffer::Buffer;
use crate::colors::Colors;

verus! {

/// A drawing surface over a buffer of its own. Positions on the canvas count
/// columns from the left and rows from the bottom, so that y grows upwards;
/// the buffer behind it stores its rows from the top. Positions are whole
/// cells: a caller that works in a logical square scales its coordinates to
/// columns and rows before it draws.
pub struct Canvas {
    buf: Buffer,
}

impl Canvas {
    /// The buffer that the canvas draws into.
    pub closed spec fn frame(&self) -> Buffer {
        self.buf
    }

    /// The cells of the buffer, row by row from the top.
    pub open spec fn view(&self) -> Seq<u32> {
        self.frame()@
    }

    /// Whether `p` is a position on this canvas.
    pub open spec fn contains(&self, p: (usize, usize)) -> bool {
        self.frame().contains(p.0 as int, p.1 as int)
    }

    /// The buffer cell that shows canvas position `p`: the same column, and
    /// the row as far from the last row as `p` is from the bottom.
    pub open spec fn pixel_of(&self, p: (usize, usize)) -> (int, int) {
        (p.0 as int, self.frame().height() - 1 - p.1)
    }

    /// A canvas over a new black buffer of the given size, with white as the
    /// draw colour.
    pub fn new(width: usize, height: usize) -> (c: Canvas)
        requires
            width * height <= usize::MAX,
        ensures
            c.frame().width() == width,
            c.frame().height() == height,
            c.frame().draw_color() == Colors::WHITE,
            c@ == Seq::new((width * height) as nat, |i: int| 0u32),
    {
        Canvas { buf: Buffer::new(width, height) }
    }

    /// The dimensions of the canvas as `(width, height)`.
    pub fn size(&self) -> (s: (usize, usize))
        ensures
            s.0 == self.frame().width(),
            s.1 == self.frame().height(),
            self@.len() == s.0 * s.1,
    {
        self.buf.size()
    }

    /// The cells of the buffer as a slice, row by row from the top, each row
    /// from the left: `width * height` packed colours.
    pub fn buffer(&self) -> (s: &[u32])
        ensures
            s@ == self@,
    {
        self.buf.as_slice()
    }

    /// Sets every cell to black, whatever the draw colour is.
    pub fn clear(&mut self)
        ensures
            final(self)@ == Seq::new(old(self)@.len(), |i: int| 0u32),
            final(self).frame().width() == old(self).frame().width(),
            final(self).frame().height() == old(self).frame().height(),
            final(self).frame().draw_color() == old(self).frame().draw_color(),
    {
        self.buf.clear();
    }

    /// Sets every cell to the draw colour.
    pub fn fill(&mut self)
        ensures
            final(self)@ == Seq::new(old(self)@.len(), |i: int| old(self).frame().draw_color()),
            final(self).frame().width() == old(self).frame().width(),
            final(self).frame().height() == old(self).frame().height(),
            final(self).frame().draw_color() == old(self).frame().draw_color(),
    {
        self.buf.fill();
    }

    /// Changes the draw colour for later drawing; no cell changes.
    pub fn set_color(&mut self, color: u32)
        ensures
            final(self).frame().draw_color() == color,
            final(self)@ == old(self)@,
            final(self).frame().width() == old(self).frame().width(),
            final(self).frame().height() == old(self).frame().height(),
    {
        self.buf.set_color(color);
    }

    /// The buffer cell that shows canvas position `p`. The bottom row of the
    /// canvas is the last row of the buffer, and its top row the first.
    pub fn point_to_pixel(&self, p: (usize, usize)) -> (r: (usize, usize))
        requires
            p.1 < self.frame().height(),
        ensures
            (r.0 as int, r.1 as int) == self.pixel_of(p),
            self.contains(p) ==> self.frame().contains(r.0 as int, r.1 as int),
    {
        let (_, height): (usize, usize) = self.buf.size();
        (p.0, (height - 1) - p.1)
    }

    /// Sets the cell at canvas position `index` to the draw colour.
    pub fn pixel(&mut self, index: (usize, usize))
        requires
            old(self).contains(index),
        ensures
            final(self).frame().drawn_over(old(self).frame(), set![old(self).pixel_of(index)]),
    {
        let at: (usize, usize) = self.point_to_pixel(index);
        self.buf.pixel(at);
    }

    /// Draws the segment between canvas positions `p1` and `p2` in the draw
    /// colour.
    pub fn line(&mut self, p1: (usize, usize), p2: (usize, usize))
        requires
            old(self).contains(p1),
            old(self).contains(p2),
        ensures
            final(self).frame().drawn_over(
                old(self).frame(),
                line_points(old(self).pixel_of(p1), old(self).pixel_of(p2)),
            ),
    {
        let a: (usize, usize) = self.point_to_pixel(p1);
        let b: (usize, usize) = self.point_to_pixel(p2);
        self.buf.line(a, b);
    }

    /// Draws the outline of the triangle with corners at canvas positions
    /// `p1`, `p2` and `p3`.
    pub fn tri(&mut self, p1: (usize, usize), p2: (usize, usize), p3: (usize, usize))
        requires
            old(self).contains(p1),
            old(self).contains(p2),
            old(self).contains(p3),
        ensures
            final(self).frame().drawn_over(
                old(self).frame(),
                triangle_points(
                    old(self).pixel_of(p1),
                    old(self).pixel_of(p2),
                    old(self).pixel_of(p3),
                ),
            ),
    {
        let a: (usize, usize) = self.point_to_pixel(p1);
        let b: (usize, usize) = self.point_to_pixel(p2);
        let c: (usize, usize) = self.point_to_pixel(p3);
        self.buf.tri(a, b, c);
    }

    /// Draws the outline of the quadrilateral with corners at canvas
    /// positions `p1`, `p2`, `p3` and `p4`, joined in that order.
    pub fn sqr(
        &mut self,
        p1: (usize, usize),
        p2: (usize, usize),
        p3: (usize, usize),
        p4: (usize, usize),
    )
        requires
            old(self).contains(p1),
            old(self).contains(p2),
            old(self).contains(p3),
            old(self).contains(p4),
        ensures
            final(self).frame().drawn_over(
                old(self).frame(),
                quad_points(
                    old(self).pixel_of(p1),
                    old(self).pixel_of(p2),
                    old(self).pixel_of(p3),
                    old(self).pixel_of(p4),
                ),
            ),
    {
        let a: (usize, usize) = self.point_to_pixel(p1);
        let b: (usize, usize) = self.point_to_pixel(p2);
        let c: (usize, usize) = self.point_to_pixel(p3);
        let d: (usize, usize) = self.point_to_pixel(p4);
        self.buf.sqr(a, b, c, d);
    }
}

} // verus!
