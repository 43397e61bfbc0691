use softraster::buffer::Buffer;
use softraster::canvas::Canvas;
use softraster::colors::Colors;

fn scaled(v: f32, extent: usize) -> usize {
    (((v + 1.) / 2.) * (extent - 1) as f32) as usize
}

fn grid_point(c: &Canvas, p: (f32, f32)) -> (usize, usize) {
    let (w, h) = c.size();
    (scaled(p.0, w), scaled(p.1, h))
}

#[test]
fn new_canvas_is_black() {
    let c = Canvas::new(7, 5);
    assert_eq!(c.size(), (7, 5));
    assert_eq!(c.buffer().len(), 35);
    assert!(c.buffer().iter().all(|v| *v == 0));
}

#[test]
fn corners_of_the_logical_square_map_to_corners_of_the_buffer() {
    for (w, h) in [(640usize, 360usize), (5, 5), (2, 9), (1, 1)] {
        let c = Canvas::new(w, h);
        assert_eq!(c.point_to_pixel(grid_point(&c, (-1., -1.))), (0, h - 1));
        assert_eq!(c.point_to_pixel(grid_point(&c, (1., 1.))), (w - 1, 0));
        assert_eq!(c.point_to_pixel(grid_point(&c, (-1., 1.))), (0, 0));
        assert_eq!(c.point_to_pixel(grid_point(&c, (1., -1.))), (w - 1, h - 1));
    }
}

#[test]
fn centre_of_the_logical_square_maps_to_the_centre_of_the_buffer() {
    let c = Canvas::new(5, 5);
    assert_eq!(c.point_to_pixel(grid_point(&c, (0., 0.))), (2, 2));
    let d = Canvas::new(641, 361);
    assert_eq!(d.point_to_pixel(grid_point(&d, (0., 0.))), (320, 180));
    let e = Canvas::new(640, 360);
    assert_eq!(e.point_to_pixel(grid_point(&e, (0., 0.))), (319, 180));
}

#[test]
fn point_to_pixel_keeps_the_column_and_flips_the_row() {
    let c = Canvas::new(4, 6);
    for y in 0..6 {
        for x in 0..4 {
            assert_eq!(c.point_to_pixel((x, y)), (x, 5 - y));
        }
    }
}

#[test]
fn canvas_pixel_lights_the_flipped_row() {
    let mut c = Canvas::new(4, 3);
    c.set_color(Colors::RED);
    c.pixel((1, 0));
    let mut expected = vec![0u32; 12];
    expected[2 * 4 + 1] = Colors::RED;
    assert_eq!(c.buffer(), &expected[..]);
    c.pixel((3, 2));
    expected[3] = Colors::RED;
    assert_eq!(c.buffer(), &expected[..]);
}

#[test]
fn canvas_clear_fill_and_set_color_act_on_the_buffer() {
    let mut c = Canvas::new(3, 2);
    c.fill();
    assert_eq!(c.buffer(), &[Colors::WHITE; 6]);
    c.set_color(Colors::GREEN);
    assert_eq!(c.buffer(), &[Colors::WHITE; 6]);
    c.fill();
    assert_eq!(c.buffer(), &[Colors::GREEN; 6]);
    c.clear();
    assert_eq!(c.buffer(), &[0u32; 6]);
    c.pixel((0, 0));
    assert_eq!(c.buffer(), &[0, 0, 0, Colors::GREEN, 0, 0]);
}

#[test]
fn canvas_line_is_the_buffer_line_between_the_flipped_ends() {
    let mut c = Canvas::new(8, 6);
    c.line((0, 0), (7, 3));
    let mut b = Buffer::new(8, 6);
    b.line((0, 5), (7, 2));
    assert_eq!(c.buffer(), b.as_slice());
}

#[test]
fn canvas_floor_line_runs_along_one_row() {
    let mut c = Canvas::new(640, 360);
    let a = grid_point(&c, (-1.0, -0.8));
    let b = grid_point(&c, (1.0, -0.8));
    assert_eq!(a, (0, 35));
    assert_eq!(b, (639, 35));
    c.line(a, b);
    let row = 359 - 35;
    for (i, v) in c.buffer().iter().enumerate() {
        let expected = if i / 640 == row { Colors::WHITE } else { 0 };
        assert_eq!(*v, expected);
    }
}

#[test]
fn canvas_triangle_and_quad_match_the_buffer_outlines() {
    let mut c = Canvas::new(9, 9);
    c.tri((1, 1), (7, 2), (4, 8));
    let mut b = Buffer::new(9, 9);
    b.tri((1, 7), (7, 6), (4, 0));
    assert_eq!(c.buffer(), b.as_slice());

    let mut d = Canvas::new(9, 9);
    d.sqr((1, 1), (7, 1), (7, 6), (1, 6));
    let mut e = Buffer::new(9, 9);
    e.sqr((1, 7), (7, 7), (7, 2), (1, 2));
    assert_eq!(d.buffer(), e.as_slice());
}
