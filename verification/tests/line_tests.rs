use softraster::buffer::Buffer;
use softraster::colors::Colors;

fn lit_cells(b: &Buffer, colour: u32) -> Vec<(usize, usize)> {
    let (w, h) = b.size();
    let mut cells = Vec::new();
    for y in 0..h {
        for x in 0..w {
            if b.get(x, y) == colour {
                cells.push((x, y));
            }
        }
    }
    cells
}

fn sorted(mut cells: Vec<(usize, usize)>) -> Vec<(usize, usize)> {
    cells.sort_by(|a, b| (a.1, a.0).cmp(&(b.1, b.0)));
    cells.dedup();
    cells
}

fn drawn(w: usize, h: usize, p1: (usize, usize), p2: (usize, usize)) -> Vec<(usize, usize)> {
    let mut b = Buffer::new(w, h);
    b.line(p1, p2);
    let cells = lit_cells(&b, Colors::WHITE);
    let (gw, gh) = b.size();
    assert_eq!((gw, gh), (w, h));
    for y in 0..h {
        for x in 0..w {
            let c = b.get(x, y);
            assert!(c == 0 || c == Colors::WHITE);
        }
    }
    cells
}

fn toward(from: usize, to: usize, k: usize) -> usize {
    if from < to {
        from + k
    } else {
        from - k
    }
}

fn nearest(n: usize, d: usize) -> usize {
    if d > 0 {
        (2 * n + d) / (2 * d)
    } else {
        0
    }
}

fn nearest_cells(p: (usize, usize), q: (usize, usize)) -> Vec<(usize, usize)> {
    let dx = p.0.abs_diff(q.0);
    let dy = p.1.abs_diff(q.1);
    let mut cells = Vec::new();
    if dx >= dy {
        for k in 0..=dx {
            cells.push((toward(p.0, q.0, k), toward(p.1, q.1, nearest(k * dy, dx))));
        }
    } else {
        for k in 0..=dy {
            cells.push((toward(p.0, q.0, nearest(k * dx, dy)), toward(p.1, q.1, k)));
        }
    }
    cells
}

fn stepped_cells(p: (usize, usize), q: (usize, usize)) -> Vec<(usize, usize)> {
    let (x2, y2) = (q.0 as i64, q.1 as i64);
    let (mut x, mut y) = (p.0 as i64, p.1 as i64);
    let dx = (x2 - x).abs();
    let sx = if x < x2 { 1 } else { -1 };
    let dy = -(y2 - y).abs();
    let sy = if y < y2 { 1 } else { -1 };
    let mut error = dx + dy;
    let mut cells = Vec::new();
    loop {
        cells.push((x as usize, y as usize));
        if x == x2 && y == y2 {
            break;
        }
        let e2 = 2 * error;
        if e2 >= dy {
            error += dy;
            x += sx;
        }
        if e2 <= dx {
            error += dx;
            y += sy;
        }
    }
    cells
}

#[test]
fn every_line_follows_the_decision_variable() {
    let (w, h) = (8usize, 5usize);
    for y1 in 0..h {
        for x1 in 0..w {
            for y2 in 0..h {
                for x2 in 0..w {
                    let cells = drawn(w, h, (x1, y1), (x2, y2));
                    assert_eq!(cells, sorted(stepped_cells((x1, y1), (x2, y2))));
                }
            }
        }
    }
}

#[test]
fn line_in_a_buffer_of_one_cell() {
    assert_eq!(drawn(1, 1, (0, 0), (0, 0)), vec![(0, 0)]);
}

#[test]
fn line_from_a_cell_to_itself_sets_that_cell_only() {
    for y in 0..4 {
        for x in 0..5 {
            assert_eq!(drawn(5, 4, (x, y), (x, y)), vec![(x, y)]);
        }
    }
}

#[test]
fn horizontal_line_sets_five_cells() {
    assert_eq!(drawn(8, 3, (0, 0), (4, 0)), vec![(0, 0), (1, 0), (2, 0), (3, 0), (4, 0)]);
    assert_eq!(drawn(5, 1, (0, 0), (4, 0)), vec![(0, 0), (1, 0), (2, 0), (3, 0), (4, 0)]);
    assert_eq!(drawn(8, 3, (4, 0), (0, 0)), vec![(0, 0), (1, 0), (2, 0), (3, 0), (4, 0)]);
}

#[test]
fn diagonal_line_sets_the_diagonal() {
    assert_eq!(drawn(5, 5, (0, 0), (4, 4)), vec![(0, 0), (1, 1), (2, 2), (3, 3), (4, 4)]);
    assert_eq!(drawn(6, 7, (0, 0), (4, 4)), vec![(0, 0), (1, 1), (2, 2), (3, 3), (4, 4)]);
    assert_eq!(drawn(5, 5, (4, 0), (0, 4)), vec![(4, 0), (3, 1), (2, 2), (1, 3), (0, 4)]);
}

#[test]
fn vertical_line_sets_its_column() {
    assert_eq!(drawn(3, 6, (1, 1), (1, 4)), vec![(1, 1), (1, 2), (1, 3), (1, 4)]);
    assert_eq!(drawn(3, 6, (1, 4), (1, 1)), vec![(1, 1), (1, 2), (1, 3), (1, 4)]);
}

#[test]
fn shallow_line_follows_the_decision_variable() {
    assert_eq!(
        drawn(8, 4, (0, 0), (5, 2)),
        vec![(0, 0), (1, 0), (2, 1), (3, 1), (4, 2), (5, 2)]
    );
    assert_eq!(
        drawn(8, 4, (0, 0), (7, 3)),
        vec![(0, 0), (1, 0), (2, 1), (3, 1), (4, 2), (5, 2), (6, 3), (7, 3)]
    );
}

#[test]
fn steep_line_follows_the_decision_variable() {
    assert_eq!(
        drawn(4, 7, (1, 6), (3, 0)),
        sorted(vec![(1, 6), (1, 5), (2, 4), (2, 3), (2, 2), (3, 1), (3, 0)])
    );
    assert_eq!(
        drawn(3, 5, (0, 0), (2, 4)),
        vec![(0, 0), (1, 1), (1, 2), (2, 3), (2, 4)]
    );
}

#[test]
fn line_drawn_leftwards_and_downwards() {
    assert_eq!(
        drawn(7, 5, (6, 1), (0, 4)),
        sorted(vec![(6, 1), (5, 2), (4, 2), (3, 3), (2, 3), (1, 4), (0, 4)])
    );
}

#[test]
fn half_way_cells_fall_on_the_side_of_the_end() {
    assert_eq!(drawn(5, 3, (0, 0), (4, 2)), vec![(0, 0), (1, 1), (2, 1), (3, 2), (4, 2)]);
    assert_eq!(drawn(5, 3, (4, 2), (0, 0)), vec![(0, 0), (1, 0), (2, 1), (3, 1), (4, 2)]);
}

#[test]
fn every_line_covers_the_nearest_cells_and_no_others() {
    let (w, h) = (7usize, 6usize);
    for y1 in 0..h {
        for x1 in 0..w {
            for y2 in 0..h {
                for x2 in 0..w {
                    let cells = drawn(w, h, (x1, y1), (x2, y2));
                    let expected = nearest_cells((x1, y1), (x2, y2));
                    assert_eq!(cells.len(), x1.abs_diff(x2).max(y1.abs_diff(y2)) + 1);
                    assert_eq!(cells, sorted(expected.clone()));
                    assert_eq!(expected[0], (x1, y1));
                    assert_eq!(expected[expected.len() - 1], (x2, y2));
                    for pair in expected.windows(2) {
                        assert!(pair[0].0.abs_diff(pair[1].0) <= 1);
                        assert!(pair[0].1.abs_diff(pair[1].1) <= 1);
                        assert_ne!(pair[0], pair[1]);
                    }
                }
            }
        }
    }
}

#[test]
fn line_uses_the_draw_colour_and_keeps_other_cells() {
    let mut b = Buffer::new(6, 4);
    b.set_color(Colors::BLUE);
    b.fill();
    b.set_color(Colors::RED);
    b.line((1, 1), (4, 3));
    assert_eq!(lit_cells(&b, Colors::RED), vec![(1, 1), (2, 2), (3, 2), (4, 3)]);
    assert_eq!(lit_cells(&b, Colors::BLUE).len(), 6 * 4 - 4);
    assert_eq!(b.color(), Colors::RED);
}

#[test]
fn line_across_a_large_buffer_reaches_its_end() {
    let mut b = Buffer::new(640, 360);
    b.line((0, 359), (639, 0));
    assert_eq!(b.get(0, 359), Colors::WHITE);
    assert_eq!(b.get(639, 0), Colors::WHITE);
    assert_eq!(lit_cells(&b, Colors::WHITE).len(), 640);
}

#[test]
fn triangle_outline_is_the_union_of_its_three_sides() {
    let corners = [
        ((1usize, 1usize), (8usize, 2usize), (4usize, 7usize)),
        ((0, 0), (9, 9), (0, 9)),
        ((5, 5), (5, 5), (5, 5)),
        ((2, 3), (7, 3), (2, 3)),
        ((9, 0), (0, 4), (6, 9)),
    ];
    for (p1, p2, p3) in corners {
        let mut outline = Buffer::new(10, 10);
        outline.set_color(Colors::GREEN);
        outline.tri(p1, p2, p3);

        let mut sides = Buffer::new(10, 10);
        sides.set_color(Colors::GREEN);
        sides.line(p1, p2);
        sides.line(p2, p3);
        sides.line(p3, p1);
        assert_eq!(outline.as_slice(), sides.as_slice());

        let mut union = Vec::new();
        for (a, b) in [(p1, p2), (p2, p3), (p3, p1)] {
            let mut one = Buffer::new(10, 10);
            one.line(a, b);
            union.extend(lit_cells(&one, Colors::WHITE));
        }
        assert_eq!(lit_cells(&outline, Colors::GREEN), sorted(union));
    }
}

#[test]
fn triangle_outline_is_not_filled() {
    let mut b = Buffer::new(9, 9);
    b.tri((0, 0), (8, 0), (0, 8));
    assert_eq!(b.get(2, 2), 0);
    assert_eq!(b.get(0, 4), Colors::WHITE);
    assert_eq!(b.get(4, 0), Colors::WHITE);
    assert_eq!(b.get(4, 4), Colors::WHITE);
}

#[test]
fn quad_outline_is_the_union_of_its_four_sides() {
    let corners = [
        ((1usize, 1usize), (6usize, 1usize), (6usize, 5usize), (1usize, 5usize)),
        ((0, 0), (7, 7), (7, 0), (0, 7)),
        ((3, 3), (3, 3), (3, 3), (3, 3)),
        ((2, 6), (5, 0), (7, 4), (0, 2)),
    ];
    for (p1, p2, p3, p4) in corners {
        let mut outline = Buffer::new(8, 8);
        outline.sqr(p1, p2, p3, p4);

        let mut union = Vec::new();
        for (a, b) in [(p1, p2), (p2, p3), (p3, p4), (p4, p1)] {
            let mut one = Buffer::new(8, 8);
            one.line(a, b);
            union.extend(lit_cells(&one, Colors::WHITE));
        }
        assert_eq!(lit_cells(&outline, Colors::WHITE), sorted(union));
    }
}

#[test]
fn rectangle_outline_has_its_border_cells() {
    let mut b = Buffer::new(6, 5);
    b.sqr((1, 1), (4, 1), (4, 3), (1, 3));
    assert_eq!(
        lit_cells(&b, Colors::WHITE),
        vec![
            (1, 1), (2, 1), (3, 1), (4, 1),
            (1, 2), (4, 2),
            (1, 3), (2, 3), (3, 3), (4, 3),
        ]
    );
}
