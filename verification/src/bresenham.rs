//! The cells of a rasterised line segment, stated in closed form, and the
//! proof that the incremental algorithm with an integer decision variable
//! visits exactly those cells.

use vstd::prelude::*;
use vstd::arithmetic::div_mod::{lemma_fundamental_div_mod, lemma_fundamental_div_mod_converse, lemma_mod_bound};

verus! {

/// Distance between two coordinates.
pub open spec fn span(a: int, b: int) -> int {
    if a <= b {
        b - a
    } else {
        a - b
    }
}

/// The coordinate `k` steps away from `from` on the side of `to`.
pub open spec fn toward(from: int, to: int, k: int) -> int {
    if from < to {
        from + k
    } else {
        from - k
    }
}

/// `n / d` rounded to the nearest integer, a half rounded up.
pub open spec fn round_div(n: int, d: int) -> int {
    if d > 0 {
        (2 * n + d) / (2 * d)
    } else {
        0
    }
}

/// Number of moves that the rasterised segment from `p` to `q` makes: the
/// longer of its two extents.
pub open spec fn line_steps(p: (int, int), q: (int, int)) -> int {
    if span(p.0, q.0) >= span(p.1, q.1) {
        span(p.0, q.0)
    } else {
        span(p.1, q.1)
    }
}

/// How far the segment has moved along x after `k` moves.
pub open spec fn x_offset(p: (int, int), q: (int, int), k: int) -> int {
    if span(p.0, q.0) >= span(p.1, q.1) {
        k
    } else {
        round_div(k * span(p.0, q.0), span(p.1, q.1))
    }
}

/// How far the segment has moved along y after `k` moves.
pub open spec fn y_offset(p: (int, int), q: (int, int), k: int) -> int {
    if span(p.0, q.0) >= span(p.1, q.1) {
        round_div(k * span(p.1, q.1), span(p.0, q.0))
    } else {
        k
    }
}

/// The cell that the segment from `p` to `q` reaches after `k` moves. Along
/// the longer extent every move advances one cell; along the shorter one the
/// cell is the one nearest to the ideal line.
pub open spec fn line_point(p: (int, int), q: (int, int), k: int) -> (int, int) {
    (toward(p.0, q.0, x_offset(p, q, k)), toward(p.1, q.1, y_offset(p, q, k)))
}

/// The decision variable of the incremental algorithm after `k` moves. With
/// `dx` and `dy` the extents along x and y, it starts at `dx - dy`, has lost
/// `dy` for each move along x and gained `dx` for each move along y.
pub open spec fn line_error(p: (int, int), q: (int, int), k: int) -> int {
    (1 + y_offset(p, q, k)) * span(p.0, q.0) - (1 + x_offset(p, q, k)) * span(p.1, q.1)
}

/// Cell and decision variable after `k` moves, as `(x, y, error)`.
pub open spec fn line_state(p: (int, int), q: (int, int), k: int) -> (int, int, int) {
    (line_point(p, q, k).0, line_point(p, q, k).1, line_error(p, q, k))
}

/// The direction of travel along one coordinate: one cell up when `to` is
/// the larger, one cell down otherwise.
pub open spec fn heading(from: int, to: int) -> int {
    if from < to {
        1
    } else {
        -1
    }
}

/// One move of the incremental algorithm on the segment from `p` to `q`,
/// from the position `(s.0, s.1)` with the decision variable at `s.2`. With
/// `dx` the extent along x and `dy` the negated extent along y, the move
/// advances along x when twice the variable is at least `dy`, and along y
/// when it is at most `dx`; the variable gains `dy` with the first and `dx`
/// with the second.
pub open spec fn walk_move(p: (int, int), q: (int, int), s: (int, int, int)) -> (int, int, int) {
    let dx = span(p.0, q.0);
    let dy = -span(p.1, q.1);
    let along_x = 2 * s.2 >= dy;
    let along_y = 2 * s.2 <= dx;
    (
        if along_x {
            s.0 + heading(p.0, q.0)
        } else {
            s.0
        },
        if along_y {
            s.1 + heading(p.1, q.1)
        } else {
            s.1
        },
        s.2 + (if along_x {
            dy
        } else {
            0
        }) + (if along_y {
            dx
        } else {
            0
        }),
    )
}

/// Position and decision variable of the incremental algorithm after `k`
/// moves from `p`, where the variable starts at `dx + dy`.
pub open spec fn walk(p: (int, int), q: (int, int), k: nat) -> (int, int, int)
    decreases k,
{
    if k == 0 {
        (p.0, p.1, span(p.0, q.0) - span(p.1, q.1))
    } else {
        walk_move(p, q, walk(p, q, (k - 1) as nat))
    }
}

/// The cells that the first `n` positions of the segment cover.
pub open spec fn line_prefix(p: (int, int), q: (int, int), n: int) -> Set<(int, int)> {
    Set::new(|c: (int, int)| exists|k: int| 0 <= k < n && #[trigger] line_point(p, q, k) == c)
}

/// All cells of the rasterised segment from `p` to `q`, both ends included.
pub open spec fn line_points(p: (int, int), q: (int, int)) -> Set<(int, int)> {
    line_prefix(p, q, line_steps(p, q) + 1)
}

/// The cells of a triangle's outline: its three sides.
pub open spec fn triangle_points(p1: (int, int), p2: (int, int), p3: (int, int)) -> Set<
    (int, int),
> {
    line_points(p1, p2).union(line_points(p2, p3)).union(line_points(p3, p1))
}

/// The cells of a quadrilateral's outline: its four sides, in the order of
/// the corners.
pub open spec fn quad_points(
    p1: (int, int),
    p2: (int, int),
    p3: (int, int),
    p4: (int, int),
) -> Set<(int, int)> {
    line_points(p1, p2).union(line_points(p2, p3)).union(line_points(p3, p4)).union(
        line_points(p4, p1),
    )
}

/// `round_div(n, d)` is the one integer `r` with `r - 1/2 <= n / d < r + 1/2`.
pub proof fn lemma_round_div_bounds(n: int, d: int)
    requires
        d > 0,
    ensures
        2 * d * round_div(n, d) <= 2 * n + d < 2 * d * (round_div(n, d) + 1),
{
    let x = 2 * n + d;
    let m = 2 * d;
    lemma_fundamental_div_mod(x, m);
    lemma_mod_bound(x, m);
    assert(m * (x / m + 1) == m * (x / m) + m) by (nonlinear_arith);
}

/// An integer within half a unit below and strictly less than half a unit
/// above `n / d` is `round_div(n, d)`.
pub proof fn lemma_round_div_unique(n: int, d: int, r: int)
    requires
        d > 0,
        2 * d * r <= 2 * n + d < 2 * d * (r + 1),
    ensures
        round_div(n, d) == r,
{
    let x = 2 * n + d;
    let m = 2 * d;
    let rem = x - m * r;
    assert(m * (r + 1) == m * r + m) by (nonlinear_arith);
    assert(x == r * m + rem) by (nonlinear_arith)
        requires
            rem == x - m * r,
    ;
    lemma_fundamental_div_mod_converse(x, m, r, rem);
}

/// Along the shorter extent the offset stays between 0 and that extent.
pub proof fn lemma_round_div_range(a: int, b: int, k: int)
    requires
        0 <= b <= a,
        0 < a,
        0 <= k <= a,
    ensures
        0 <= round_div(k * b, a) <= b,
        k == 0 ==> round_div(k * b, a) == 0,
        k == a ==> round_div(k * b, a) == b,
{
    let m = round_div(k * b, a);
    lemma_round_div_bounds(k * b, a);
    assert(0 <= k * b <= a * b) by (nonlinear_arith)
        requires
            0 <= b,
            0 <= k <= a,
    ;
    assert(0 <= m <= b) by (nonlinear_arith)
        requires
            2 * a * m <= 2 * (k * b) + a < 2 * a * (m + 1),
            0 <= k * b <= a * b,
            0 < a,
            0 <= b,
    ;
    if k == 0 {
        assert(k * b == 0);
        assert(2 * a * 0 <= 2 * 0 + a < 2 * a * (0 + 1)) by (nonlinear_arith)
            requires
                0 < a,
        ;
        lemma_round_div_unique(0, a, 0);
    }
    if k == a {
        assert(2 * a * b <= 2 * (a * b) + a < 2 * a * (b + 1)) by (nonlinear_arith)
            requires
                0 < a,
        ;
        lemma_round_div_unique(a * b, a, b);
    }
}

/// One move of the segment, seen along the shorter extent `b` of a segment
/// whose longer extent is `a`: from offset `m` after `k` moves the offset
/// either stays or grows by one, and it grows exactly when the next
/// position's ideal offset has reached `m + 1/2`.
pub proof fn lemma_round_div_step(a: int, b: int, k: int)
    requires
        0 <= b <= a,
        0 <= k < a,
    ensures
        ({
            let m = round_div(k * b, a);
            let next = round_div((k + 1) * b, a);
            &&& 0 <= m <= b
            &&& (2 * k + 1) * b <= 2 * a * (m + 1)
            &&& if 2 * (k + 1) * b + a >= 2 * a * (m + 1) {
                next == m + 1 && m < b
            } else {
                next == m
            }
        }),
{
    let m = round_div(k * b, a);
    let next = round_div((k + 1) * b, a);
    lemma_round_div_bounds(k * b, a);
    lemma_round_div_range(a, b, k);
    lemma_round_div_range(a, b, k + 1);
    let kb = k * b;
    let am = a * m;
    assert((k + 1) * b == kb + b) by (nonlinear_arith)
        requires
            kb == k * b,
    ;
    assert(2 * a * m == 2 * am && 2 * a * (m + 1) == 2 * am + 2 * a && 2 * a * (m + 2) == 2 * am
        + 4 * a) by (nonlinear_arith)
        requires
            am == a * m,
    ;
    assert((2 * k + 1) * b == 2 * kb + b && 2 * (k + 1) * b == 2 * kb + 2 * b)
        by (nonlinear_arith)
        requires
            kb == k * b,
    ;
    if 2 * (k + 1) * b + a >= 2 * a * (m + 1) {
        assert(2 * a * (m + 1) <= 2 * ((k + 1) * b) + a < 2 * a * (m + 1 + 1));
        lemma_round_div_unique((k + 1) * b, a, m + 1);
    } else {
        assert(2 * a * m <= 2 * ((k + 1) * b) + a < 2 * a * (m + 1));
        lemma_round_div_unique((k + 1) * b, a, m);
    }
}

/// Where the segment starts: at `p`, with the decision variable at the
/// difference of the two extents.
pub proof fn lemma_line_start(p: (int, int), q: (int, int))
    ensures
        line_point(p, q, 0) == p,
        line_state(p, q, 0) == (p.0, p.1, span(p.0, q.0) - span(p.1, q.1)),
{
    let dx = span(p.0, q.0);
    let dy = span(p.1, q.1);
    if dx >= dy {
        if dx > 0 {
            lemma_round_div_range(dx, dy, 0);
        }
    } else {
        lemma_round_div_range(dy, dx, 0);
    }
    assert((1 + 0) * dx - (1 + 0) * dy == dx - dy) by (nonlinear_arith);
}

/// Every position of the segment lies between `p` and `q` in both
/// coordinates, and only the last position is `q`.
pub proof fn lemma_line_offsets(p: (int, int), q: (int, int), k: int)
    requires
        0 <= k <= line_steps(p, q),
    ensures
        0 <= x_offset(p, q, k) <= span(p.0, q.0),
        0 <= y_offset(p, q, k) <= span(p.1, q.1),
        p.0 <= line_point(p, q, k).0 <= q.0 || q.0 <= line_point(p, q, k).0 <= p.0,
        p.1 <= line_point(p, q, k).1 <= q.1 || q.1 <= line_point(p, q, k).1 <= p.1,
        line_point(p, q, k) == q <==> k == line_steps(p, q),
{
    let dx = span(p.0, q.0);
    let dy = span(p.1, q.1);
    if dx >= dy {
        if dx > 0 {
            lemma_round_div_range(dx, dy, k);
        }
    } else {
        lemma_round_div_range(dy, dx, k);
    }
}

/// One move of the segment is one move of the incremental algorithm: the
/// cell and the decision variable after `k + 1` moves are what `walk_move`
/// makes of those after `k` moves. A move along a coordinate starts short of
/// `q` in that coordinate, so no move goes past `q`.
pub proof fn lemma_line_step(p: (int, int), q: (int, int), k: int)
    requires
        0 <= k < line_steps(p, q),
    ensures
        line_state(p, q, k + 1) == walk_move(p, q, line_state(p, q, k)),
        2 * line_error(p, q, k) >= -span(p.1, q.1) ==> line_point(p, q, k).0 != q.0,
        2 * line_error(p, q, k) <= span(p.0, q.0) ==> line_point(p, q, k).1 != q.1,
        x_offset(p, q, k) <= x_offset(p, q, k + 1) <= x_offset(p, q, k) + 1,
        y_offset(p, q, k) <= y_offset(p, q, k + 1) <= y_offset(p, q, k) + 1,
{
    let dx = span(p.0, q.0);
    let dy = span(p.1, q.1);
    let nx = x_offset(p, q, k);
    let ny = y_offset(p, q, k);
    let e = line_error(p, q, k);
    lemma_line_offsets(p, q, k);
    lemma_line_offsets(p, q, k + 1);
    if dx >= dy {
        lemma_round_div_step(dx, dy, k);
        let am = dx * ny;
        let kb = k * dy;
        assert(e == am + dx - kb - dy && 2 * dx * (ny + 1) == 2 * am + 2 * dx && (2 * k + 1) * dy
            == 2 * kb + dy && 2 * (k + 1) * dy == 2 * kb + 2 * dy) by (nonlinear_arith)
            requires
                e == (1 + ny) * dx - (1 + k) * dy,
                am == dx * ny,
                kb == k * dy,
        ;
        let ny2 = y_offset(p, q, k + 1);
        assert(line_error(p, q, k + 1) == (1 + ny2) * dx - (1 + (k + 1)) * dy);
        assert((1 + ny2) * dx - (1 + (k + 1)) * dy == e + (ny2 - ny) * dx - dy)
            by (nonlinear_arith)
            requires
                e == (1 + ny) * dx - (1 + k) * dy,
        ;
        assert((ny2 - ny) * dx == if ny2 == ny { 0 } else { dx }) by (nonlinear_arith)
            requires
                ny2 == ny || ny2 == ny + 1,
        ;
    } else {
        lemma_round_div_step(dy, dx, k);
        let am = dy * nx;
        let kb = k * dx;
        assert(e == kb + dx - am - dy && 2 * dy * (nx + 1) == 2 * am + 2 * dy && (2 * k + 1) * dx
            == 2 * kb + dx && 2 * (k + 1) * dx == 2 * kb + 2 * dx) by (nonlinear_arith)
            requires
                e == (1 + k) * dx - (1 + nx) * dy,
                am == dy * nx,
                kb == k * dx,
        ;
        let nx2 = x_offset(p, q, k + 1);
        assert(line_error(p, q, k + 1) == (1 + (k + 1)) * dx - (1 + nx2) * dy);
        assert((1 + (k + 1)) * dx - (1 + nx2) * dy == e + dx - (nx2 - nx) * dy)
            by (nonlinear_arith)
            requires
                e == (1 + k) * dx - (1 + nx) * dy,
        ;
        assert((nx2 - nx) * dy == if nx2 == nx { 0 } else { dy }) by (nonlinear_arith)
            requires
                nx2 == nx || nx2 == nx + 1,
        ;
    }
}

/// The incremental algorithm visits the cells of the segment in order: after
/// `k` moves it stands on `line_point(p, q, k)` with its decision variable at
/// `line_error(p, q, k)`. It reaches `q` with the last move and not before.
pub proof fn lemma_walk_is_line(p: (int, int), q: (int, int), k: nat)
    requires
        k <= line_steps(p, q),
    ensures
        walk(p, q, k) == line_state(p, q, k as int),
        (walk(p, q, k).0, walk(p, q, k).1) == q <==> k == line_steps(p, q),
    decreases k,
{
    lemma_line_offsets(p, q, k as int);
    if k == 0 {
        lemma_line_start(p, q);
    } else {
        lemma_walk_is_line(p, q, (k - 1) as nat);
        lemma_line_step(p, q, k - 1);
    }
}

/// The first `n + 1` positions cover what the first `n` cover and the
/// position after `n` moves.
pub proof fn lemma_line_prefix_step(p: (int, int), q: (int, int), n: int)
    requires
        0 <= n,
    ensures
        line_prefix(p, q, 0) == Set::<(int, int)>::empty(),
        line_prefix(p, q, n + 1) == line_prefix(p, q, n).insert(line_point(p, q, n)),
{
    assert(line_prefix(p, q, 0) =~= Set::<(int, int)>::empty());
    let small = line_prefix(p, q, n);
    let big = line_prefix(p, q, n + 1);
    let last = line_point(p, q, n);
    assert forall|c: (int, int)| big.contains(c) <==> small.insert(last).contains(c) by {
        if small.contains(c) {
            let k = choose|k: int| 0 <= k < n && #[trigger] line_point(p, q, k) == c;
            assert(0 <= k < n + 1 && line_point(p, q, k) == c);
        }
        if c == last {
            assert(0 <= n < n + 1 && line_point(p, q, n) == c);
        }
    }
    assert(big =~= small.insert(last));
}

/// A segment from a cell to itself covers that cell and no other.
pub proof fn lemma_line_single(p: (int, int))
    ensures
        line_steps(p, p) == 0,
        line_points(p, p) == set![p],
{
    lemma_line_start(p, p);
    lemma_line_prefix_step(p, p, 0);
    assert(Set::<(int, int)>::empty().insert(p) =~= set![p]);
}

/// A segment covers both of its ends.
pub proof fn lemma_line_ends(p: (int, int), q: (int, int))
    ensures
        line_points(p, q).contains(p),
        line_points(p, q).contains(q),
{
    let n = line_steps(p, q);
    lemma_line_start(p, q);
    lemma_line_offsets(p, q, n);
    assert(0 <= 0 < n + 1 && line_point(p, q, 0) == p);
    assert(0 <= n < n + 1 && line_point(p, q, n) == q);
}

/// Every cell of a segment lies between the two ends in both coordinates, so
/// a segment between two cells of a grid stays inside the grid.
pub proof fn lemma_line_in_box(p: (int, int), q: (int, int), c: (int, int))
    requires
        line_points(p, q).contains(c),
    ensures
        p.0 <= c.0 <= q.0 || q.0 <= c.0 <= p.0,
        p.1 <= c.1 <= q.1 || q.1 <= c.1 <= p.1,
{
    let k = choose|k: int| 0 <= k < line_steps(p, q) + 1 && #[trigger] line_point(p, q, k) == c;
    lemma_line_offsets(p, q, k);
}

/// The path is connected and one cell wide: each move changes the
/// coordinate along the longer extent by exactly one, towards `q`, and the
/// other coordinate by at most one, towards `q`.
pub proof fn lemma_line_connected(p: (int, int), q: (int, int), k: int)
    requires
        0 <= k < line_steps(p, q),
    ensures
        ({
            let here = line_point(p, q, k);
            let next = line_point(p, q, k + 1);
            &&& span(here.0, next.0) <= 1
            &&& span(here.1, next.1) <= 1
            &&& span(p.0, q.0) >= span(p.1, q.1) ==> next.0 == toward(here.0, q.0, 1)
            &&& span(p.0, q.0) < span(p.1, q.1) ==> next.1 == toward(here.1, q.1, 1)
            &&& span(next.0, q.0) <= span(here.0, q.0)
            &&& span(next.1, q.1) <= span(here.1, q.1)
        }),
{
    lemma_line_step(p, q, k);
    lemma_line_offsets(p, q, k);
    lemma_line_offsets(p, q, k + 1);
}

/// Every cell of the path is the nearest one to the ideal line: measured
/// along the shorter extent it is at most half a cell away, and a cell
/// exactly half way lies on the side of `q`.
pub proof fn lemma_line_nearest(p: (int, int), q: (int, int), k: int)
    requires
        0 <= k <= line_steps(p, q),
    ensures
        ({
            let dx = span(p.0, q.0);
            let dy = span(p.1, q.1);
            let off = 2 * (x_offset(p, q, k) * dy - y_offset(p, q, k) * dx);
            &&& dx >= dy ==> -dx <= off && (off < dx || dx == 0)
            &&& dx < dy ==> -dy < off <= dy
        }),
{
    let dx = span(p.0, q.0);
    let dy = span(p.1, q.1);
    if dx >= dy {
        if dx > 0 {
            let m = y_offset(p, q, k);
            lemma_round_div_bounds(k * dy, dx);
            assert(2 * dx * m == 2 * (m * dx) && 2 * dx * (m + 1) == 2 * (m * dx) + 2 * dx)
                by (nonlinear_arith);
        } else {
            assert(x_offset(p, q, k) * dy - y_offset(p, q, k) * dx == 0) by (nonlinear_arith)
                requires
                    dx == 0,
                    dy == 0,
            ;
        }
    } else {
        let m = x_offset(p, q, k);
        lemma_round_div_bounds(k * dx, dy);
        assert(2 * dy * m == 2 * (m * dy) && 2 * dy * (m + 1) == 2 * (m * dy) + 2 * dy)
            by (nonlinear_arith);
    }
}

/// No two positions of the path are the same cell.
pub proof fn lemma_line_distinct(p: (int, int), q: (int, int), j: int, k: int)
    requires
        0 <= j < k <= line_steps(p, q),
    ensures
        line_point(p, q, j) != line_point(p, q, k),
{
}

/// The path covers exactly one cell for each position: one more than the
/// longer extent.
pub proof fn lemma_line_count(p: (int, int), q: (int, int))
    ensures
        line_points(p, q).finite(),
        line_points(p, q).len() == line_steps(p, q) + 1,
{
    lemma_line_prefix_count(p, q, line_steps(p, q) + 1);
}

proof fn lemma_line_prefix_count(p: (int, int), q: (int, int), n: int)
    requires
        0 <= n <= line_steps(p, q) + 1,
    ensures
        line_prefix(p, q, n).finite(),
        line_prefix(p, q, n).len() == n,
    decreases n,
{
    lemma_line_prefix_step(p, q, if n > 0 { n - 1 } else { 0 });
    if n > 0 {
        lemma_line_prefix_count(p, q, n - 1);
        let last = line_point(p, q, n - 1);
        if line_prefix(p, q, n - 1).contains(last) {
            let j = choose|j: int| 0 <= j < n - 1 && #[trigger] line_point(p, q, j) == last;
            lemma_line_distinct(p, q, j, n - 1);
        }
    }
}

/// A horizontal segment covers the cells of its row between its ends.
pub proof fn lemma_line_horizontal(p: (int, int), q: (int, int))
    requires
        p.1 == q.1,
    ensures
        line_points(p, q) == Set::new(
            |c: (int, int)| c.1 == p.1 && (p.0 <= c.0 <= q.0 || q.0 <= c.0 <= p.0),
        ),
{
    let row = Set::new(|c: (int, int)| c.1 == p.1 && (p.0 <= c.0 <= q.0 || q.0 <= c.0 <= p.0));
    assert forall|c: (int, int)| line_points(p, q).contains(c) <==> row.contains(c) by {
        if line_points(p, q).contains(c) {
            lemma_line_in_box(p, q, c);
        }
        if row.contains(c) {
            let k = span(p.0, c.0);
            lemma_line_offsets(p, q, k);
            assert(line_point(p, q, k) == c);
        }
    }
    assert(line_points(p, q) =~= row);
}

/// A vertical segment covers the cells of its column between its ends.
pub proof fn lemma_line_vertical(p: (int, int), q: (int, int))
    requires
        p.0 == q.0,
    ensures
        line_points(p, q) == Set::new(
            |c: (int, int)| c.0 == p.0 && (p.1 <= c.1 <= q.1 || q.1 <= c.1 <= p.1),
        ),
{
    let column = Set::new(
        |c: (int, int)| c.0 == p.0 && (p.1 <= c.1 <= q.1 || q.1 <= c.1 <= p.1),
    );
    assert forall|c: (int, int)| line_points(p, q).contains(c) <==> column.contains(c) by {
        if line_points(p, q).contains(c) {
            lemma_line_in_box(p, q, c);
        }
        if column.contains(c) {
            let k = span(p.1, c.1);
            lemma_line_offsets(p, q, k);
            assert(line_point(p, q, k) == c);
        }
    }
    assert(line_points(p, q) =~= column);
}

/// A segment whose two extents are equal moves along both coordinates with
/// every move: its positions are the cells of the diagonal.
pub proof fn lemma_line_diagonal(p: (int, int), q: (int, int), k: int)
    requires
        span(p.0, q.0) == span(p.1, q.1),
        0 <= k <= line_steps(p, q),
    ensures
        line_point(p, q, k) == (toward(p.0, q.0, k), toward(p.1, q.1, k)),
{
    let d = span(p.0, q.0);
    if d > 0 {
        assert(2 * d * k <= 2 * (k * d) + d < 2 * d * (k + 1)) by (nonlinear_arith)
            requires
                d > 0,
        ;
        lemma_round_div_unique(k * d, d, k);
    }
}

} // verus!
