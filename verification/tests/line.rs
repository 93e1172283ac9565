use game_of_life::color::Color;
use game_of_life::framebuffer::Framebuffer;

fn lit(fb: &Framebuffer) -> Vec<(usize, usize)> {
    let mut pixels = Vec::new();
    for (i, &word) in fb.get_buffer().iter().enumerate() {
        if word != 0 {
            pixels.push((i % fb.width(), i / fb.width()));
        }
    }
    pixels
}

fn drawn(width: usize, height: usize, from: (isize, isize), to: (isize, isize)) -> Vec<(usize, usize)> {
    let mut fb = Framebuffer::new(width, height);
    fb.draw_line(from, to);
    lit(&fb)
}

#[test]
fn horizontal_line() {
    assert_eq!(drawn(6, 3, (1, 1), (4, 1)), vec![(1, 1), (2, 1), (3, 1), (4, 1)]);
    assert_eq!(drawn(6, 3, (4, 1), (1, 1)), vec![(1, 1), (2, 1), (3, 1), (4, 1)]);
}

#[test]
fn vertical_line() {
    assert_eq!(drawn(3, 6, (2, 0), (2, 5)), vec![(2, 0), (2, 1), (2, 2), (2, 3), (2, 4), (2, 5)]);
    assert_eq!(drawn(3, 6, (2, 5), (2, 0)), vec![(2, 0), (2, 1), (2, 2), (2, 3), (2, 4), (2, 5)]);
}

#[test]
fn diagonal_lines() {
    assert_eq!(drawn(4, 4, (0, 0), (3, 3)), vec![(0, 0), (1, 1), (2, 2), (3, 3)]);
    assert_eq!(drawn(4, 4, (3, 3), (0, 0)), vec![(0, 0), (1, 1), (2, 2), (3, 3)]);
    assert_eq!(drawn(4, 4, (0, 3), (3, 0)), vec![(3, 0), (2, 1), (1, 2), (0, 3)]);
    assert_eq!(drawn(4, 4, (3, 0), (0, 3)), vec![(3, 0), (2, 1), (1, 2), (0, 3)]);
}

#[test]
fn line_of_one_point() {
    assert_eq!(drawn(3, 3, (1, 2), (1, 2)), vec![(1, 2)]);
    assert_eq!(drawn(3, 3, (5, 5), (5, 5)), Vec::<(usize, usize)>::new());
}

#[test]
fn shallow_line_follows_the_nearest_pixels() {
    // Offsets along y after i steps: (4 i + 5) / 10 = 0 0 1 1 2 2.
    assert_eq!(
        drawn(6, 3, (0, 0), (5, 2)),
        vec![(0, 0), (1, 0), (2, 1), (3, 1), (4, 2), (5, 2)]
    );
    // Drawn from the other end the offsets are counted from there.
    assert_eq!(
        drawn(6, 3, (5, 2), (0, 0)),
        vec![(0, 0), (1, 0), (2, 1), (3, 1), (4, 2), (5, 2)]
    );
}

#[test]
fn steep_line_follows_the_nearest_pixels() {
    assert_eq!(
        drawn(3, 6, (0, 0), (2, 5)),
        vec![(0, 0), (0, 1), (1, 2), (1, 3), (2, 4), (2, 5)]
    );
    // One in three: offsets (2 i + 3) / 6 = 0 0 1 1.
    assert_eq!(drawn(2, 4, (1, 0), (0, 3)), vec![(1, 0), (1, 1), (0, 2), (0, 3)]);
}

#[test]
fn half_way_rounds_towards_the_second_endpoint() {
    // One step along y in two steps along x: offsets (2 i + 2) / 4 = 0 1 1.
    assert_eq!(drawn(3, 2, (0, 0), (2, 1)), vec![(0, 0), (1, 1), (2, 1)]);
    assert_eq!(drawn(3, 2, (2, 1), (0, 0)), vec![(0, 0), (1, 0), (2, 1)]);
}

#[test]
fn line_has_one_pixel_per_step_along_the_longer_side() {
    for &(from, to) in &[
        ((0isize, 0isize), (19isize, 7isize)),
        ((19, 7), (0, 0)),
        ((3, 18), (11, 1)),
        ((0, 19), (19, 0)),
        ((5, 5), (5, 17)),
        ((2, 9), (17, 9)),
        ((1, 2), (4, 19)),
    ] {
        let pixels = drawn(20, 20, from, to);
        let dx = (to.0 - from.0).unsigned_abs();
        let dy = (to.1 - from.1).unsigned_abs();
        assert_eq!(pixels.len(), dx.max(dy) + 1);
        assert!(pixels.contains(&(from.0 as usize, from.1 as usize)));
        assert!(pixels.contains(&(to.0 as usize, to.1 as usize)));
        // No gaps: every pixel but the ends touches two others of the line.
        for &(x, y) in &pixels {
            let touching = pixels
                .iter()
                .filter(|&&(u, v)| (u, v) != (x, y) && u.abs_diff(x) <= 1 && v.abs_diff(y) <= 1)
                .count();
            assert!(touching >= 1);
            if (x, y) != (from.0 as usize, from.1 as usize) && (x, y) != (to.0 as usize, to.1 as usize) {
                assert!(touching >= 2);
            }
        }
    }
}

#[test]
fn line_is_clipped_to_the_canvas() {
    assert_eq!(drawn(3, 3, (-2, -2), (4, 4)), vec![(0, 0), (1, 1), (2, 2)]);
    assert_eq!(drawn(4, 2, (-1000, 1), (1000, 1)), vec![(0, 1), (1, 1), (2, 1), (3, 1)]);
    assert_eq!(drawn(4, 4, (-5, 0), (-1, 3)), Vec::<(usize, usize)>::new());
}

#[test]
fn line_keeps_other_pixels_and_uses_the_current_colour() {
    let mut fb = Framebuffer::new(4, 2);
    fb.point(0, 1);
    fb.set_current_color(Color::new(255, 0, 0));
    fb.draw_line((1, 0), (3, 0));
    assert_eq!(
        fb.get_buffer(),
        &vec![0, 0x00ff_0000, 0x00ff_0000, 0x00ff_0000, 0x00ff_ffff, 0, 0, 0]
    );
}

#[test]
fn triangle_outline() {
    let mut fb = Framebuffer::new(5, 5);
    fb.draw_polygon(&[(0, 0), (4, 0), (4, 4)]);
    let mut expected = vec![(0, 0), (1, 0), (2, 0), (3, 0), (4, 0)];
    expected.extend_from_slice(&[(1, 1), (4, 1), (2, 2), (4, 2), (3, 3), (4, 3), (4, 4)]);
    assert_eq!(lit(&fb), expected);
}

#[test]
fn square_outline_is_closed() {
    let mut fb = Framebuffer::new(4, 4);
    fb.draw_polygon(&[(0, 0), (3, 0), (3, 3), (0, 3)]);
    let mut expected = Vec::new();
    for y in 0..4 {
        for x in 0..4 {
            if x == 0 || x == 3 || y == 0 || y == 3 {
                expected.push((x, y));
            }
        }
    }
    assert_eq!(lit(&fb), expected);
}

#[test]
fn polygon_is_the_same_as_its_edges() {
    let vertices = [(1isize, 1isize), (8, 2), (6, 9), (-2, 5)];
    let mut outline = Framebuffer::new(10, 10);
    outline.draw_polygon(&vertices);
    let mut edges = Framebuffer::new(10, 10);
    edges.draw_line(vertices[0], vertices[1]);
    edges.draw_line(vertices[1], vertices[2]);
    edges.draw_line(vertices[2], vertices[3]);
    edges.draw_line(vertices[3], vertices[0]);
    assert_eq!(outline.get_buffer(), edges.get_buffer());
}

#[test]
fn polygon_of_two_vertices_draws_the_line_both_ways() {
    let mut outline = Framebuffer::new(3, 2);
    outline.draw_polygon(&[(0, 0), (2, 1)]);
    // There and back differ at the half-way step.
    assert_eq!(lit(&outline), vec![(0, 0), (1, 0), (1, 1), (2, 1)]);
}

#[test]
fn polygon_of_fewer_than_two_vertices() {
    let mut none = Framebuffer::new(3, 3);
    none.draw_polygon(&[]);
    assert_eq!(lit(&none), Vec::<(usize, usize)>::new());
    let mut one = Framebuffer::new(3, 3);
    one.draw_polygon(&[(1, 1)]);
    assert_eq!(lit(&one), vec![(1, 1)]);
}
