//! The bitmap encoder: a framebuffer as the bytes of an uncompressed 24-bit
//! Windows bitmap file.
//!
//! The file is a 14-byte file header, a 40-byte info header and the pixel
//! data. Numbers are little-endian. Rows are stored from the bottom of the
//! picture to the top, each pixel as blue, green, red, and each row is padded
//! with zero bytes to a multiple of four bytes.

use vstd::prelude::*;
use crate::color::Color;
use crate::color::blue_of;
use crate::color::green_of;
use crate::color::red_of;
use crate::framebuffer::Canvas;
use crate::framebuffer::Framebuffer;
use crate::grid::lemma_index_in_grid;

verus! {

/// Length of the two headers together, and so the offset of the pixel data.
pub const HEADER_SIZE: usize = 54;

/// Length of the info header.
pub const INFO_HEADER_SIZE: u32 = 40;

/// The resolution written to the info header, in pixels per metre (72 dpi).
pub const PIXELS_PER_METRE: u32 = 2835;

/// The largest width or height that the signed 32-bit header fields hold.
pub const MAX_DIMENSION: usize = 0x7fff_ffff;

/// The largest file size that the 32-bit size field holds.
pub const MAX_FILE_SIZE: u64 = 0xffff_ffff;

/// Why a framebuffer cannot be written as a bitmap.
#[derive(Clone, Copy, Debug, PartialEq, Eq, Structural)]
pub enum BmpError {
    /// The width or the height does not fit the header's signed 32-bit field.
    DimensionTooLarge,
    /// The file would be longer than its 32-bit size field can say.
    FileTooLarge,
}

impl BmpError {
    /// A short description of the error.
    pub fn describe(&self) -> (text: &'static str)
        ensures
            text@ == match *self {
                BmpError::DimensionTooLarge => "image dimension exceeds the bitmap header field"@,
                BmpError::FileTooLarge => "image exceeds the largest bitmap file size"@,
            },
    {
        match self {
            BmpError::DimensionTooLarge => "image dimension exceeds the bitmap header field",
            BmpError::FileTooLarge => "image exceeds the largest bitmap file size",
        }
    }
}

/// The number of bytes of one stored row: three per pixel, rounded up to a
/// multiple of four.
pub open spec fn row_size(width: int) -> int {
    (3 * width + 3) / 4 * 4
}

/// The number of bytes of the pixel data.
pub open spec fn data_size(width: int, height: int) -> int {
    row_size(width) * height
}

/// The number of bytes of the whole file.
pub open spec fn file_size(width: int, height: int) -> int {
    HEADER_SIZE + data_size(width, height)
}

/// The two bytes of a 16-bit number, low byte first.
pub open spec fn le16(v: int) -> Seq<u8> {
    seq![(v % 256) as u8, (v / 256 % 256) as u8]
}

/// The four bytes of a 32-bit number, low byte first.
pub open spec fn le32(v: int) -> Seq<u8> {
    seq![
        (v % 256) as u8,
        (v / 256 % 256) as u8,
        (v / 65536 % 256) as u8,
        (v / 16777216 % 256) as u8,
    ]
}

/// The number that the four bytes from `at` on spell, low byte first.
pub open spec fn le32_at(bytes: Seq<u8>, at: int) -> int {
    bytes[at] + 256 * bytes[at + 1] + 65536 * bytes[at + 2] + 16777216 * bytes[at + 3]
}

/// The file header of a file of `size` bytes: the signature `BM`, the file
/// size, two reserved fields and the offset of the pixel data.
pub open spec fn file_header(size: int) -> Seq<u8> {
    seq![0x42u8, 0x4du8] + le32(size) + le16(0) + le16(0) + le32(HEADER_SIZE as int)
}

/// The info header of a picture with `data` bytes of pixel data: its own
/// size, width, height, one plane, 24 bits per pixel, no compression, the size
/// of the pixel data, the resolution twice, and no palette.
pub open spec fn info_header(width: int, height: int, data: int) -> Seq<u8> {
    le32(INFO_HEADER_SIZE as int) + le32(width) + le32(height) + le16(1) + le16(24) + le32(0)
        + le32(data) + le32(PIXELS_PER_METRE as int) + le32(PIXELS_PER_METRE as int) + le32(0)
        + le32(0)
}

/// The two headers of a picture of the given size.
pub open spec fn headers(width: int, height: int) -> Seq<u8> {
    file_header(file_size(width, height)) + info_header(width, height, data_size(width, height))
}

/// The byte at `column` of the stored row that holds picture row `y`: pixel
/// `x` takes the bytes `3 * x` (blue), `3 * x + 1` (green) and `3 * x + 2`
/// (red), and the bytes after the last pixel are zero.
pub open spec fn row_byte(c: Canvas, y: int, column: int) -> u8 {
    if column < 3 * c.width {
        let word = c.pixel(column / 3, y);
        if column % 3 == 0 {
            blue_of(word)
        } else if column % 3 == 1 {
            green_of(word)
        } else {
            red_of(word)
        }
    } else {
        0
    }
}

/// The stored row that holds picture row `y`.
pub open spec fn stored_row(c: Canvas, y: int) -> Seq<u8> {
    Seq::new(row_size(c.width as int) as nat, |column: int| row_byte(c, y, column))
}

/// The `k`-th byte of the pixel data of a canvas. Rows are stored from the
/// bottom up: stored row `k / row_size` is picture row
/// `height - 1 - k / row_size`.
pub open spec fn pixel_data_byte(c: Canvas, k: int) -> u8 {
    let stride = row_size(c.width as int);
    row_byte(c, c.height - 1 - k / stride, k % stride)
}

/// The pixel data of a canvas.
pub open spec fn pixel_data(c: Canvas) -> Seq<u8> {
    Seq::new(data_size(c.width as int, c.height as int) as nat, |k: int| pixel_data_byte(c, k))
}

/// The bitmap file of a canvas.
pub open spec fn bmp_bytes(c: Canvas) -> Seq<u8> {
    headers(c.width as int, c.height as int) + pixel_data(c)
}

/// Why no file can hold a picture of the given size, if none can.
pub open spec fn size_error(width: int, height: int) -> Option<BmpError> {
    if width > MAX_DIMENSION || height > MAX_DIMENSION {
        Some(BmpError::DimensionTooLarge)
    } else if file_size(width, height) > MAX_FILE_SIZE {
        Some(BmpError::FileTooLarge)
    } else {
        None
    }
}

/// What encoding a canvas gives: the file, or the reason why there is none.
pub open spec fn encoded(c: Canvas) -> Result<Seq<u8>, BmpError> {
    match size_error(c.width as int, c.height as int) {
        Some(e) => Err(e),
        None => Ok(bmp_bytes(c)),
    }
}

/// The colour that a reader of the file finds at the pixel `(x, y)`, counted
/// from the top left: it takes the offset of the pixel data, the width and the
/// height from the headers, goes to the stored row `height - 1 - y` and reads
/// blue, green and red.
pub open spec fn read_pixel(bytes: Seq<u8>, x: int, y: int) -> Color {
    let offset = le32_at(bytes, 10);
    let width = le32_at(bytes, 18);
    let height = le32_at(bytes, 22);
    let at = offset + (height - 1 - y) * row_size(width) + 3 * x;
    Color { r: bytes[at + 2], g: bytes[at + 1], b: bytes[at] }
}

/// Four little-endian bytes spell the number they were made from.
pub proof fn lemma_le32_value(v: int)
    requires
        0 <= v <= 0xffff_ffff,
    ensures
        le32(v).len() == 4,
        le32_at(le32(v), 0) == v,
{
}

/// A stored row holds all its pixels and is a multiple of four bytes long,
/// with fewer than four bytes of padding.
pub proof fn lemma_row_size(width: int)
    requires
        0 <= width,
    ensures
        3 * width <= row_size(width) < 3 * width + 4,
        row_size(width) % 4 == 0,
{
}

/// Where the byte `column` of stored row `row` lies in the pixel data.
proof fn lemma_data_index(stride: int, height: int, row: int, column: int)
    requires
        0 <= row < height,
        0 <= column < stride,
    ensures
        0 <= row * stride + column < stride * height,
        (row * stride + column) / stride == row,
        (row * stride + column) % stride == column,
{
    lemma_index_in_grid(stride, height, column, row);
}

/// Where the parts of a sequence joined from five parts lie.
proof fn lemma_five_parts(a: Seq<u8>, b: Seq<u8>, c: Seq<u8>, d: Seq<u8>, e: Seq<u8>)
    requires
        a.len() == 2,
        b.len() == 4,
        c.len() == 2,
        d.len() == 2,
        e.len() == 4,
    ensures
        (a + b + c + d + e).len() == 14,
        forall|j: int| 0 <= j < 2 ==> (a + b + c + d + e)[j] == #[trigger] a[j],
        forall|j: int| 0 <= j < 4 ==> (a + b + c + d + e)[2 + j] == #[trigger] b[j],
        forall|j: int| 0 <= j < 4 ==> (a + b + c + d + e)[10 + j] == #[trigger] e[j],
{
}

/// Where the first parts of a sequence joined from seven parts lie.
proof fn lemma_seven_parts(
    a: Seq<u8>,
    b: Seq<u8>,
    c: Seq<u8>,
    d: Seq<u8>,
    e: Seq<u8>,
    f: Seq<u8>,
    g: Seq<u8>,
)
    requires
        a.len() == 4,
        b.len() == 4,
        c.len() == 4,
        d.len() == 2,
        e.len() == 2,
        f.len() == 4,
    ensures
        (a + b + c + d + e + f + g).len() == 20 + g.len(),
        forall|j: int| 0 <= j < 4 ==> (a + b + c + d + e + f + g)[j] == #[trigger] a[j],
        forall|j: int| 0 <= j < 4 ==> (a + b + c + d + e + f + g)[4 + j] == #[trigger] b[j],
        forall|j: int| 0 <= j < 4 ==> (a + b + c + d + e + f + g)[8 + j] == #[trigger] c[j],
        forall|j: int| 0 <= j < 2 ==> (a + b + c + d + e + f + g)[12 + j] == #[trigger] d[j],
        forall|j: int| 0 <= j < 2 ==> (a + b + c + d + e + f + g)[14 + j] == #[trigger] e[j],
        forall|j: int| 0 <= j < 4 ==> (a + b + c + d + e + f + g)[16 + j] == #[trigger] f[j],
{
}

/// The fields of the file header.
proof fn lemma_file_header_fields(size: int)
    requires
        0 <= size <= MAX_FILE_SIZE,
    ensures
        file_header(size).len() == 14,
        file_header(size)[0] == 0x42,
        file_header(size)[1] == 0x4d,
        le32_at(file_header(size), 2) == size,
        le32_at(file_header(size), 10) == HEADER_SIZE,
{
    let sig = seq![0x42u8, 0x4du8];
    let length = le32(size);
    let offset = le32(HEADER_SIZE as int);
    lemma_five_parts(sig, length, le16(0), le16(0), offset);
    let f = file_header(size);
    assert(f[0] == sig[0] && f[1] == sig[1]);
    assert(f[2] == length[0] && f[3] == length[1] && f[4] == length[2] && f[5] == length[3]);
    assert(f[10] == offset[0] && f[11] == offset[1] && f[12] == offset[2] && f[13] == offset[3]);
    lemma_le32_value(size);
    lemma_le32_value(HEADER_SIZE as int);
}

/// The fields of the info header.
proof fn lemma_info_header_fields(width: int, height: int, data: int)
    requires
        0 <= width <= MAX_DIMENSION,
        0 <= height <= MAX_DIMENSION,
    ensures
        info_header(width, height, data).len() == 40,
        le32_at(info_header(width, height, data), 0) == INFO_HEADER_SIZE,
        le32_at(info_header(width, height, data), 4) == width,
        le32_at(info_header(width, height, data), 8) == height,
        info_header(width, height, data)[12] == 1,
        info_header(width, height, data)[13] == 0,
        info_header(width, height, data)[14] == 24,
        info_header(width, height, data)[15] == 0,
        le32_at(info_header(width, height, data), 16) == 0,
{
    let own = le32(INFO_HEADER_SIZE as int);
    let w = le32(width);
    let h = le32(height);
    let planes = le16(1);
    let depth = le16(24);
    let none = le32(0);
    let first = own + w + h + planes + depth + none;
    let tail = le32(data) + le32(PIXELS_PER_METRE as int) + le32(PIXELS_PER_METRE as int) + le32(0)
        + le32(0);
    let f = info_header(width, height, data);
    assert(f =~= first + tail);
    lemma_seven_parts(own, w, h, planes, depth, none, tail);
    assert(f[0] == own[0] && f[1] == own[1] && f[2] == own[2] && f[3] == own[3]);
    assert(f[4] == w[0] && f[5] == w[1] && f[6] == w[2] && f[7] == w[3]);
    assert(f[8] == h[0] && f[9] == h[1] && f[10] == h[2] && f[11] == h[3]);
    assert(f[12] == planes[0] && f[13] == planes[1]);
    assert(f[14] == depth[0] && f[15] == depth[1]);
    assert(f[16] == none[0] && f[17] == none[1] && f[18] == none[2] && f[19] == none[3]);
    lemma_le32_value(INFO_HEADER_SIZE as int);
    lemma_le32_value(width);
    lemma_le32_value(height);
    lemma_le32_value(0);
}

/// The layout of the file: the headers take 54 bytes and the pixel data
/// follows them.
pub proof fn lemma_bmp_layout(c: Canvas)
    requires
        c.wf(),
    ensures
        headers(c.width as int, c.height as int).len() == HEADER_SIZE,
        bmp_bytes(c).len() == file_size(c.width as int, c.height as int),
        forall|j: int|
            0 <= j < 14 ==> #[trigger] bmp_bytes(c)[j] == file_header(
                file_size(c.width as int, c.height as int),
            )[j],
        forall|j: int|
            0 <= j < 40 ==> #[trigger] bmp_bytes(c)[14 + j] == info_header(
                c.width as int,
                c.height as int,
                data_size(c.width as int, c.height as int),
            )[j],
        forall|k: int|
            0 <= k < data_size(c.width as int, c.height as int) ==> #[trigger] bmp_bytes(c)[54 + k]
                == pixel_data_byte(c, k),
{
    lemma_row_size(c.width as int);
    assert(row_size(c.width as int) * c.height >= 0) by (nonlinear_arith)
        requires
            row_size(c.width as int) >= 0,
            c.height >= 0,
    ;
}

/// What a reader learns from the headers: in the file of a canvas that can be
/// encoded, the signature is `BM`, and the header fields give the length of
/// the file, the offset of the pixel data, the width, the height, one plane,
/// 24 bits per pixel and no compression.
pub proof fn lemma_bmp_headers(c: Canvas)
    requires
        c.wf(),
        encoded(c) is Ok,
    ensures
        ({
            let bytes = bmp_bytes(c);
            &&& bytes.len() >= HEADER_SIZE
            &&& bytes[0] == 0x42
            &&& bytes[1] == 0x4d
            &&& le32_at(bytes, 2) == bytes.len()
            &&& le32_at(bytes, 10) == HEADER_SIZE
            &&& le32_at(bytes, 14) == INFO_HEADER_SIZE
            &&& le32_at(bytes, 18) == c.width
            &&& le32_at(bytes, 22) == c.height
            &&& bytes[26] == 1
            &&& bytes[27] == 0
            &&& bytes[28] == 24
            &&& bytes[29] == 0
            &&& le32_at(bytes, 30) == 0
        }),
{
    let w = c.width as int;
    let h = c.height as int;
    let bytes = bmp_bytes(c);
    lemma_bmp_layout(c);
    lemma_row_size(w);
    assert(row_size(w) * h >= 0) by (nonlinear_arith)
        requires
            row_size(w) >= 0,
            h >= 0,
    ;
    lemma_file_header_fields(file_size(w, h));
    lemma_info_header_fields(w, h, data_size(w, h));
    let f = file_header(file_size(w, h));
    let g = info_header(w, h, data_size(w, h));
    assert(bytes[0] == f[0] && bytes[1] == f[1]);
    assert(bytes[2] == f[2] && bytes[3] == f[3] && bytes[4] == f[4] && bytes[5] == f[5]);
    assert(bytes[10] == f[10] && bytes[11] == f[11] && bytes[12] == f[12] && bytes[13] == f[13]);
    assert(bytes[14int] == g[0] && bytes[15int] == g[1] && bytes[16int] == g[2] && bytes[17int]
        == g[3]);
    assert(bytes[18int] == g[4] && bytes[19int] == g[5] && bytes[20int] == g[6] && bytes[21int]
        == g[7]);
    assert(bytes[22int] == g[8] && bytes[23int] == g[9] && bytes[24int] == g[10] && bytes[25int]
        == g[11]);
    assert(bytes[26int] == g[12] && bytes[27int] == g[13] && bytes[28int] == g[14] && bytes[29int]
        == g[15]);
    assert(bytes[30int] == g[16] && bytes[31int] == g[17] && bytes[32int] == g[18] && bytes[33int]
        == g[19]);
}

/// Reading back what was written: in the file of a canvas that can be
/// encoded, a reader that goes by the header fields finds at every pixel the
/// colour that the canvas holds there.
pub proof fn lemma_bmp_round_trip(c: Canvas, x: int, y: int)
    requires
        c.wf(),
        c.contains(x, y),
        encoded(c) is Ok,
    ensures
        read_pixel(bmp_bytes(c), x, y) == Color::unpacked(c.pixel(x, y)),
{
    let w = c.width as int;
    let h = c.height as int;
    let bytes = bmp_bytes(c);
    let stride = row_size(w);
    lemma_bmp_headers(c);
    lemma_bmp_layout(c);
    lemma_row_size(w);
    let row = h - 1 - y;
    lemma_data_index(stride, h, row, 3 * x);
    lemma_data_index(stride, h, row, 3 * x + 1);
    lemma_data_index(stride, h, row, 3 * x + 2);
    let k = row * stride + 3 * x;
    assert(bytes[54 + k] == pixel_data_byte(c, k));
    assert(bytes[54 + (k + 1)] == pixel_data_byte(c, k + 1));
    assert(bytes[54 + (k + 2)] == pixel_data_byte(c, k + 2));
}

/// Appends the four bytes of `v`, low byte first.
fn push_le32(out: &mut Vec<u8>, v: u32)
    ensures
        final(out)@ == old(out)@ + le32(v as int),
{
    out.push((v % 256) as u8);
    out.push((v / 256 % 256) as u8);
    out.push((v / 65536 % 256) as u8);
    out.push((v / 16777216 % 256) as u8);
    assert(out@ =~= old(out)@ + le32(v as int));
}

/// Appends the two bytes of `v`, low byte first.
fn push_le16(out: &mut Vec<u8>, v: u16)
    ensures
        final(out)@ == old(out)@ + le16(v as int),
{
    out.push((v % 256) as u8);
    out.push((v / 256 % 256) as u8);
    assert(out@ =~= old(out)@ + le16(v as int));
}

/// Appends one pixel: blue, green, red.
fn push_pixel(out: &mut Vec<u8>, word: u32)
    ensures
        final(out)@ == old(out)@ + seq![blue_of(word), green_of(word), red_of(word)],
{
    let c: Color = Color::from_hex(word);
    out.push(c.b);
    out.push(c.g);
    out.push(c.r);
    assert(out@ =~= old(out)@ + seq![blue_of(word), green_of(word), red_of(word)]);
}

/// Appends the two headers.
fn push_headers(out: &mut Vec<u8>, width: u32, height: u32, data: u32)
    requires
        old(out)@.len() == 0,
        data == data_size(width as int, height as int),
        HEADER_SIZE + data <= MAX_FILE_SIZE,
    ensures
        final(out)@ == headers(width as int, height as int),
        final(out)@.len() == HEADER_SIZE,
{
    out.push(0x42);
    out.push(0x4d);
    push_le32(out, 54 + data);
    push_le16(out, 0);
    push_le16(out, 0);
    push_le32(out, 54);
    assert(out@ =~= file_header(54 + data));
    let ghost file_head = out@;
    push_le32(out, INFO_HEADER_SIZE);
    push_le32(out, width);
    push_le32(out, height);
    push_le16(out, 1);
    push_le16(out, 24);
    push_le32(out, 0);
    push_le32(out, data);
    push_le32(out, PIXELS_PER_METRE);
    push_le32(out, PIXELS_PER_METRE);
    push_le32(out, 0);
    push_le32(out, 0);
    assert(out@ =~= file_head + info_header(width as int, height as int, data as int));
}

/// Appends the stored row of picture row `y`: its pixels from left to right,
/// then the padding.
fn push_row(out: &mut Vec<u8>, fb: &Framebuffer, y: usize)
    requires
        fb.wf(),
        y < fb@.height,
        fb@.width <= MAX_DIMENSION,
    ensures
        final(out)@ == old(out)@ + stored_row(fb@, y as int),
{
    let ghost c = fb@;
    let ghost target = stored_row(c, y as int);
    let width: usize = fb.width();
    let buffer: &Vec<u32> = fb.get_buffer();
    let stride: u64 = (3 * (width as u64) + 3) / 4 * 4;
    let mut x: usize = 0;
    while x < width
        invariant
            x <= width,
            c == fb@,
            c.wf(),
            y < c.height,
            width == c.width,
            width <= MAX_DIMENSION,
            buffer@ == c.pixels,
            target == stored_row(c, y as int),
            out@ == old(out)@ + target.take(3 * x),
        decreases width - x,
    {
        proof {
            lemma_index_in_grid(width as int, c.height as int, x as int, y as int);
            assert(buffer.len() == width * c.height);
        }
        let word: u32 = buffer[y * width + x];
        push_pixel(out, word);
        proof {
            assert(c.pixel(x as int, y as int) == word);
            assert(target.take(3 * x + 3) =~= target.take(3 * x) + seq![
                blue_of(word),
                green_of(word),
                red_of(word),
            ]);
            assert(out@ =~= old(out)@ + target.take(3 * x + 3));
        }
        x += 1;
    }
    let mut column: u64 = 3 * (width as u64);
    while column < stride
        invariant
            3 * width <= column <= stride,
            stride == row_size(width as int),
            width == c.width,
            target == stored_row(c, y as int),
            out@ == old(out)@ + target.take(column as int),
        decreases stride - column,
    {
        out.push(0);
        proof {
            assert(target.take(column + 1) =~= target.take(column as int).push(0u8));
            assert(out@ =~= old(out)@ + target.take(column + 1));
        }
        column += 1;
    }
    assert(target.take(column as int) =~= target);
}

/// The first `rows` stored rows of the pixel data.
spec fn stored_rows(c: Canvas, rows: int) -> Seq<u8> {
    pixel_data(c).take(rows * row_size(c.width as int))
}

/// The first `rows + 1` stored rows are the first `rows` followed by the
/// stored row of picture row `height - 1 - rows`.
proof fn lemma_append_row(c: Canvas, rows: int)
    requires
        0 <= rows < c.height,
    ensures
        stored_rows(c, rows + 1) == stored_rows(c, rows) + stored_row(c, c.height - 1 - rows),
{
    let stride = row_size(c.width as int);
    let h = c.height as int;
    lemma_row_size(c.width as int);
    assert(0 <= rows * stride && (rows + 1) * stride == rows * stride + stride && (rows + 1)
        * stride <= stride * h) by (nonlinear_arith)
        requires
            0 <= rows < h,
            0 <= stride,
    ;
    let longer = stored_rows(c, rows + 1);
    let joined = stored_rows(c, rows) + stored_row(c, h - 1 - rows);
    assert forall|k: int| 0 <= k < longer.len() implies longer[k] == joined[k] by {
        if k >= rows * stride {
            lemma_data_index(stride, h, rows, k - rows * stride);
        }
    }
    assert(longer =~= joined);
}

/// No stored rows are no bytes, and all the stored rows are the pixel data.
proof fn lemma_all_rows(c: Canvas)
    ensures
        stored_rows(c, 0) == Seq::<u8>::empty(),
        stored_rows(c, c.height as int) == pixel_data(c),
{
    let stride = row_size(c.width as int);
    assert(0 * stride == 0 && c.height * stride == stride * c.height) by (nonlinear_arith);
    assert(stored_rows(c, 0) =~= Seq::<u8>::empty());
    assert(stored_rows(c, c.height as int) =~= pixel_data(c));
}

/// The length of the pixel data of a picture of `width` by `height` pixels,
/// or the reason why no bitmap file can hold such a picture.
pub fn data_length(width: usize, height: usize) -> (r: Result<u32, BmpError>)
    ensures
        match r {
            Ok(n) => size_error(width as int, height as int) is None && n == data_size(
                width as int,
                height as int,
            ),
            Err(e) => size_error(width as int, height as int) == Some(e),
        },
{
    if width > MAX_DIMENSION || height > MAX_DIMENSION {
        return Err(BmpError::DimensionTooLarge);
    }
    let stride: u64 = (3 * (width as u64) + 3) / 4 * 4;
    assert(0 <= stride * height <= 0x1_8000_0000 * 0x7fff_ffff) by (nonlinear_arith)
        requires
            0 <= stride <= 0x1_8000_0000,
            0 <= height <= 0x7fff_ffff,
    ;
    let data: u64 = stride * (height as u64);
    if data > MAX_FILE_SIZE - 54 {
        return Err(BmpError::FileTooLarge);
    }
    Ok(data as u32)
}

/// Encodes the framebuffer as a bitmap file. Fails, and says why, when the
/// picture is too large for the format's 32-bit header fields.
pub fn encode(fb: &Framebuffer) -> (r: Result<Vec<u8>, BmpError>)
    requires
        fb.wf(),
    ensures
        match r {
            Ok(bytes) => encoded(fb@) == Ok::<Seq<u8>, BmpError>(bytes@),
            Err(e) => encoded(fb@) == Err::<Seq<u8>, BmpError>(e),
        },
{
    let ghost c = fb@;
    let width: usize = fb.width();
    let height: usize = fb.height();
    let data: u32 = match data_length(width, height) {
        Ok(n) => n,
        Err(e) => { return Err(e); },
    };
    let mut out: Vec<u8> = Vec::new();
    push_headers(&mut out, width as u32, height as u32, data);
    let ghost head = out@;
    proof {
        lemma_all_rows(c);
        assert(out@ =~= head + stored_rows(c, 0));
    }
    let mut row: usize = 0;
    while row < height
        invariant
            row <= height,
            c == fb@,
            fb.wf(),
            height == c.height,
            c.width <= MAX_DIMENSION,
            out@ == head + stored_rows(c, row as int),
        decreases height - row,
    {
        proof {
            lemma_append_row(c, row as int);
        }
        push_row(&mut out, fb, height - 1 - row);
        assert(out@ =~= head + stored_rows(c, row + 1));
        row += 1;
    }
    Ok(out)
}

} // verus!
