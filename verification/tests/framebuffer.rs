use game_of_life::color::Color;
use game_of_life::framebuffer::Framebuffer;

const BLACK: u32 = 0x0000_0000;
const WHITE: u32 = 0x00ff_ffff;

#[test]
fn new_framebuffer_is_black_and_draws_in_white() {
    let fb = Framebuffer::new(4, 3);
    assert_eq!(fb.width(), 4);
    assert_eq!(fb.height(), 3);
    assert_eq!(fb.get_buffer(), &vec![BLACK; 12]);
    assert_eq!(fb.background_color(), Color::black());
    assert_eq!(fb.current_color(), Color::white());
}

#[test]
fn framebuffer_without_pixels() {
    let mut fb = Framebuffer::new(0, 0);
    assert_eq!(fb.get_buffer().len(), 0);
    fb.point(0, 0);
    fb.clear();
    assert_eq!(fb.get_buffer().len(), 0);
    let mut flat = Framebuffer::new(5, 0);
    flat.point(2, 0);
    assert_eq!(flat.get_buffer().len(), 0);
}

#[test]
fn point_sets_one_pixel() {
    let mut fb = Framebuffer::new(4, 3);
    fb.point(1, 2);
    let mut expected = vec![BLACK; 12];
    expected[2 * 4 + 1] = WHITE;
    assert_eq!(fb.get_buffer(), &expected);
}

#[test]
fn point_uses_the_current_colour() {
    let mut fb = Framebuffer::new(3, 2);
    fb.set_current_color(Color::new(0x10, 0x20, 0x30));
    fb.point(0, 0);
    fb.set_current_color(Color::new(0xaa, 0xbb, 0xcc));
    fb.point(2, 1);
    assert_eq!(
        fb.get_buffer(),
        &vec![0x0010_2030, BLACK, BLACK, BLACK, BLACK, 0x00aa_bbcc]
    );
    assert_eq!(fb.current_color(), Color::new(0xaa, 0xbb, 0xcc));
}

#[test]
fn point_outside_the_canvas_is_ignored() {
    let mut fb = Framebuffer::new(4, 3);
    fb.point(2, 1);
    let before = fb.get_buffer().clone();
    for &(x, y) in &[
        (-1isize, 0isize),
        (0, -1),
        (4, 0),
        (0, 3),
        (4, 3),
        (-1, -1),
        (isize::MAX, 0),
        (0, isize::MAX),
        (isize::MIN, isize::MIN),
        (isize::MAX, isize::MAX),
    ] {
        fb.point(x, y);
        assert_eq!(fb.get_buffer(), &before);
    }
}

#[test]
fn every_corner_can_be_set() {
    let mut fb = Framebuffer::new(3, 3);
    fb.point(0, 0);
    fb.point(2, 0);
    fb.point(0, 2);
    fb.point(2, 2);
    assert_eq!(
        fb.get_buffer(),
        &vec![WHITE, BLACK, WHITE, BLACK, BLACK, BLACK, WHITE, BLACK, WHITE]
    );
}

#[test]
fn clear_fills_with_the_background_colour() {
    let mut fb = Framebuffer::new(3, 2);
    fb.point(1, 1);
    fb.point(0, 0);
    fb.clear();
    assert_eq!(fb.get_buffer(), &vec![BLACK; 6]);
    fb.set_background_color(Color::new(1, 2, 3));
    assert_eq!(fb.get_buffer(), &vec![BLACK; 6]);
    fb.point(2, 0);
    fb.clear();
    assert_eq!(fb.get_buffer(), &vec![0x0001_0203; 6]);
    assert_eq!(fb.background_color(), Color::new(1, 2, 3));
    assert_eq!(fb.current_color(), Color::white());
}

#[test]
fn setting_colours_changes_no_pixel() {
    let mut fb = Framebuffer::new(2, 2);
    fb.point(1, 0);
    let before = fb.get_buffer().clone();
    fb.set_background_color(Color::new(9, 9, 9));
    fb.set_current_color(Color::new(8, 8, 8));
    assert_eq!(fb.get_buffer(), &before);
    assert_eq!((fb.width(), fb.height()), (2, 2));
}

#[test]
fn update_buffer_paints_every_pixel_from_the_grid() {
    let mut fb = Framebuffer::new(3, 2);
    fb.set_current_color(Color::new(0, 255, 0));
    fb.set_background_color(Color::new(0, 0, 64));
    fb.point(0, 0);
    fb.update_buffer(&[false, true, true, false, false, true]);
    let on = 0x0000_ff00;
    let off = 0x0000_0040;
    assert_eq!(fb.get_buffer(), &vec![off, on, on, off, off, on]);
}
