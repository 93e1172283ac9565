use game_of_life::bmp::data_length;
use game_of_life::bmp::encode;
use game_of_life::bmp::BmpError;
use game_of_life::color::Color;
use game_of_life::framebuffer::Framebuffer;
use std::io::Cursor;

fn picture(width: usize, height: usize, colors: &[Color]) -> Framebuffer {
    let mut fb = Framebuffer::new(width, height);
    for y in 0..height {
        for x in 0..width {
            fb.set_current_color(colors[y * width + x]);
            fb.point(x as isize, y as isize);
        }
    }
    fb
}

fn gradient(width: usize, height: usize) -> Vec<Color> {
    let mut colors = Vec::new();
    for y in 0..height {
        for x in 0..width {
            colors.push(Color::new((17 * x + 3) as u8, (29 * y + 5) as u8, (x + 7 * y + 11) as u8));
        }
    }
    colors
}

fn le32(bytes: &[u8], at: usize) -> u32 {
    u32::from_le_bytes([bytes[at], bytes[at + 1], bytes[at + 2], bytes[at + 3]])
}

#[test]
fn two_by_two_file_byte_for_byte() {
    let red = Color::new(255, 0, 0);
    let green = Color::new(0, 255, 0);
    let blue = Color::new(0, 0, 255);
    let grey = Color::new(0x11, 0x22, 0x33);
    let fb = picture(2, 2, &[red, green, blue, grey]);
    let bytes = encode(&fb).unwrap();
    let expected: Vec<u8> = vec![
        0x42, 0x4d, // signature
        70, 0, 0, 0, // file size
        0, 0, 0, 0, // reserved
        54, 0, 0, 0, // offset of the pixel data
        40, 0, 0, 0, // size of the info header
        2, 0, 0, 0, // width
        2, 0, 0, 0, // height
        1, 0, // planes
        24, 0, // bits per pixel
        0, 0, 0, 0, // no compression
        16, 0, 0, 0, // size of the pixel data
        0x13, 0x0b, 0, 0, // 2835 pixels per metre
        0x13, 0x0b, 0, 0, //
        0, 0, 0, 0, // colours in the palette
        0, 0, 0, 0, // important colours
        255, 0, 0, 0x33, 0x22, 0x11, 0, 0, // bottom row: blue, grey, padding
        0, 0, 255, 0, 255, 0, 0, 0, // top row: red, green, padding
    ];
    assert_eq!(bytes, expected);
}

#[test]
fn two_by_two_round_trip_through_a_bitmap_reader() {
    let colors = [
        Color::new(255, 0, 0),
        Color::new(0, 255, 0),
        Color::new(0, 0, 255),
        Color::new(0x11, 0x22, 0x33),
    ];
    let fb = picture(2, 2, &colors);
    let bytes = encode(&fb).unwrap();
    let image = bmp::from_reader(&mut Cursor::new(bytes)).unwrap();
    assert_eq!(image.get_width(), 2);
    assert_eq!(image.get_height(), 2);
    for y in 0..2u32 {
        for x in 0..2u32 {
            let pixel = image.get_pixel(x, y);
            let color = colors[(y * 2 + x) as usize];
            assert_eq!((pixel.r, pixel.g, pixel.b), (color.r, color.g, color.b));
        }
    }
}

#[test]
fn round_trip_for_every_padding() {
    for width in 1..=9usize {
        for height in 1..=4usize {
            let colors = gradient(width, height);
            let fb = picture(width, height, &colors);
            let bytes = encode(&fb).unwrap();
            let stride = (3 * width + 3) / 4 * 4;
            assert_eq!(bytes.len(), 54 + stride * height);
            assert_eq!(le32(&bytes, 2) as usize, bytes.len());
            assert_eq!(le32(&bytes, 34) as usize, stride * height);
            let image = bmp::from_reader(&mut Cursor::new(bytes)).unwrap();
            assert_eq!(image.get_width() as usize, width);
            assert_eq!(image.get_height() as usize, height);
            for y in 0..height {
                for x in 0..width {
                    let pixel = image.get_pixel(x as u32, y as u32);
                    let color = colors[y * width + x];
                    assert_eq!((pixel.r, pixel.g, pixel.b), (color.r, color.g, color.b));
                }
            }
        }
    }
}

#[test]
fn rows_are_stored_bottom_up_in_blue_green_red() {
    let colors = gradient(3, 2);
    let fb = picture(3, 2, &colors);
    let bytes = encode(&fb).unwrap();
    // Three pixels take nine bytes, a stored row twelve.
    assert_eq!(bytes.len(), 54 + 24);
    for y in 0..2 {
        let row = 54 + (1 - y) * 12;
        for x in 0..3 {
            let c = colors[y * 3 + x];
            assert_eq!(&bytes[row + 3 * x..row + 3 * x + 3], &[c.b, c.g, c.r]);
        }
        assert_eq!(&bytes[row + 9..row + 12], &[0, 0, 0]);
    }
}

#[test]
fn fresh_framebuffer_encodes_as_black() {
    let fb = Framebuffer::new(4, 1);
    let bytes = encode(&fb).unwrap();
    assert_eq!(bytes.len(), 54 + 12);
    assert_eq!(&bytes[54..], &[0u8; 12]);
}

#[test]
fn the_high_byte_of_a_pixel_word_is_not_written() {
    let mut fb = Framebuffer::new(1, 1);
    fb.set_current_color(Color::from_hex(0xff01_0203));
    fb.point(0, 0);
    assert_eq!(fb.get_buffer(), &vec![0x0001_0203]);
    let bytes = encode(&fb).unwrap();
    assert_eq!(&bytes[54..], &[3, 2, 1, 0]);
}

#[test]
fn picture_without_pixels_is_headers_only() {
    let bytes = encode(&Framebuffer::new(0, 0)).unwrap();
    assert_eq!(bytes.len(), 54);
    assert_eq!(le32(&bytes, 2), 54);
    assert_eq!(le32(&bytes, 18), 0);
    assert_eq!(le32(&bytes, 22), 0);
    let wide = encode(&Framebuffer::new(7, 0)).unwrap();
    assert_eq!(wide.len(), 54);
    assert_eq!(le32(&wide, 18), 7);
    let tall = encode(&Framebuffer::new(0, 7)).unwrap();
    assert_eq!(tall.len(), 54);
    assert_eq!(le32(&tall, 22), 7);
}

#[test]
fn data_length_is_padded_rows_times_height() {
    assert_eq!(data_length(0, 0), Ok(0));
    assert_eq!(data_length(1, 1), Ok(4));
    assert_eq!(data_length(2, 2), Ok(16));
    assert_eq!(data_length(3, 2), Ok(24));
    assert_eq!(data_length(4, 5), Ok(60));
    assert_eq!(data_length(5, 1), Ok(16));
    assert_eq!(data_length(800, 600), Ok(1_440_000));
}

#[test]
fn dimension_over_the_signed_field_is_refused() {
    assert_eq!(data_length(0x8000_0000, 0), Err(BmpError::DimensionTooLarge));
    assert_eq!(data_length(0, 0x8000_0000), Err(BmpError::DimensionTooLarge));
    assert_eq!(data_length(usize::MAX, usize::MAX), Err(BmpError::DimensionTooLarge));
    assert_eq!(data_length(0x7fff_ffff, 0), Ok(0));
    assert_eq!(data_length(0, 0x7fff_ffff), Ok(0));
    assert_eq!(
        encode(&Framebuffer::new(0x8000_0000, 0)),
        Err(BmpError::DimensionTooLarge)
    );
    assert_eq!(
        encode(&Framebuffer::new(0, 0x8000_0000)),
        Err(BmpError::DimensionTooLarge)
    );
}

#[test]
fn file_over_the_size_field_is_refused() {
    // Rows of one pixel take four bytes each.
    assert_eq!(data_length(1, 0x3fff_fff2), Ok(0xffff_ffc8));
    assert_eq!(data_length(1, 0x3fff_fff3), Err(BmpError::FileTooLarge));
    assert_eq!(data_length(0x7fff_ffff, 1), Err(BmpError::FileTooLarge));
    assert_eq!(data_length(0x7fff_ffff, 0x7fff_ffff), Err(BmpError::FileTooLarge));
    assert_eq!(data_length(40_000, 40_000), Err(BmpError::FileTooLarge));
}

#[test]
fn errors_describe_themselves() {
    assert_eq!(
        BmpError::DimensionTooLarge.describe(),
        "image dimension exceeds the bitmap header field"
    );
    assert_eq!(
        BmpError::FileTooLarge.describe(),
        "image exceeds the largest bitmap file size"
    );
}
