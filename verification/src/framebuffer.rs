//! The framebuffer: a fixed-size canvas of packed pixel words, row-major with
//! the origin at the top left, a background colour and a drawing colour.

use vstd::prelude::*;
use crate::color::Color;
use crate::grid::lemma_index_in_grid;

verus! {

/// The mathematical model of a framebuffer.
pub struct Canvas {
    pub width: nat,
    pub height: nat,
    /// One packed word per pixel; the pixel `(x, y)` is at `y * width + x`.
    pub pixels: Seq<u32>,
    /// The colour that `cleared` fills the canvas with.
    pub background: Color,
    /// The colour that drawing operations write.
    pub current: Color,
}

impl Canvas {
    /// There is exactly one word for each pixel.
    pub open spec fn wf(self) -> bool {
        self.pixels.len() == self.width * self.height
    }

    /// Whether `(x, y)` is a pixel of the canvas.
    pub open spec fn contains(self, x: int, y: int) -> bool {
        0 <= x < self.width && 0 <= y < self.height
    }

    /// The word of the pixel `(x, y)`.
    pub open spec fn pixel(self, x: int, y: int) -> u32 {
        self.pixels[y * self.width + x]
    }

    /// A canvas of the given size, black all over, that draws in white.
    pub open spec fn blank(width: nat, height: nat) -> Canvas {
        Canvas {
            width,
            height,
            pixels: Seq::new(width * height, |i: int| Color::spec_black().packed()),
            background: Color::spec_black(),
            current: Color::spec_white(),
        }
    }

    /// The canvas with every pixel set to the background colour.
    pub open spec fn cleared(self) -> Canvas {
        Canvas {
            pixels: Seq::new(self.pixels.len(), |i: int| self.background.packed()),
            ..self
        }
    }

    /// The canvas with the pixel `(x, y)` set to the drawing colour; a point
    /// outside the canvas leaves it as it is.
    pub open spec fn plotted(self, x: int, y: int) -> Canvas {
        if self.contains(x, y) {
            Canvas { pixels: self.pixels.update(y * self.width + x, self.current.packed()), ..self }
        } else {
            self
        }
    }

    /// The canvas with every point of `points` that lies on it set to the
    /// drawing colour, and every other pixel as it was.
    pub open spec fn stroked(self, points: Seq<(int, int)>) -> Canvas {
        Canvas {
            pixels: Seq::new(
                self.pixels.len(),
                |i: int|
                    if points.contains((i % (self.width as int), i / (self.width as int))) {
                        self.current.packed()
                    } else {
                        self.pixels[i]
                    },
            ),
            ..self
        }
    }

    /// The canvas repainted from a grid of booleans, index by index: the
    /// drawing colour where the grid holds `true`, the background elsewhere.
    pub open spec fn painted(self, grid: Seq<bool>) -> Canvas {
        Canvas {
            pixels: Seq::new(
                self.pixels.len(),
                |i: int|
                    if grid[i] {
                        self.current.packed()
                    } else {
                        self.background.packed()
                    },
            ),
            ..self
        }
    }
}

/// After clearing, every pixel holds the background colour.
pub proof fn lemma_cleared_is_background(c: Canvas, x: int, y: int)
    requires
        c.wf(),
        c.contains(x, y),
    ensures
        c.cleared().wf(),
        c.cleared().pixel(x, y) == c.background.packed(),
{
    lemma_index_in_grid(c.width as int, c.height as int, x, y);
}

/// Plotting a point of the canvas changes that pixel and no other; plotting a
/// point outside the canvas changes nothing.
pub proof fn lemma_plotted_changes_one_pixel(c: Canvas, x: int, y: int, px: int, py: int)
    requires
        c.wf(),
        c.contains(px, py),
    ensures
        c.plotted(x, y).wf(),
        !c.contains(x, y) ==> c.plotted(x, y) == c,
        c.plotted(x, y).pixel(px, py) == if px == x && py == y {
            c.current.packed()
        } else {
            c.pixel(px, py)
        },
{
    lemma_index_in_grid(c.width as int, c.height as int, px, py);
    if c.contains(x, y) {
        lemma_index_in_grid(c.width as int, c.height as int, x, y);
    }
}

/// A stroke sets the pixels of its points to the drawing colour and leaves
/// every other pixel as it was.
pub proof fn lemma_stroked_pixel(c: Canvas, points: Seq<(int, int)>, px: int, py: int)
    requires
        c.wf(),
        c.contains(px, py),
    ensures
        c.stroked(points).wf(),
        c.stroked(points).pixel(px, py) == if points.contains((px, py)) {
            c.current.packed()
        } else {
            c.pixel(px, py)
        },
{
    lemma_index_in_grid(c.width as int, c.height as int, px, py);
}

/// Stroking no points changes nothing.
pub proof fn lemma_stroke_nothing(c: Canvas)
    ensures
        c.stroked(Seq::empty()) == c,
{
    assert(c.stroked(Seq::empty()).pixels =~= c.pixels);
}

/// Plotting one more point after a stroke is the stroke of the longer
/// sequence.
pub proof fn lemma_stroke_then_plot(c: Canvas, points: Seq<(int, int)>, x: int, y: int)
    requires
        c.wf(),
    ensures
        c.stroked(points).plotted(x, y) == c.stroked(points.push((x, y))),
{
    let w = c.width as int;
    let h = c.height as int;
    let before = c.stroked(points);
    let longer = points.push((x, y));
    assert forall|i: int| 0 <= i < c.pixels.len() implies before.plotted(x, y).pixels[i]
        == c.stroked(longer).pixels[i] by {
        assert(w > 0 && h > 0 && i < w * h && i / w < h && 0 <= i % w < w && i == w * (i / w) + i
            % w && w * (i / w) == (i / w) * w) by (nonlinear_arith)
            requires
                0 <= i < w * h,
                0 <= w,
                0 <= h,
        ;
        let p = (i % w, i / w);
        if points.contains(p) {
            let k = choose|k: int| 0 <= k < points.len() && points[k] == p;
            assert(longer[k] == p);
        }
        if p == (x, y) {
            assert(longer[points.len() as int] == p);
        }
        if c.contains(x, y) {
            lemma_index_in_grid(w, h, x, y);
        }
        if longer.contains(p) {
            let k = choose|k: int| 0 <= k < longer.len() && longer[k] == p;
            if k < points.len() {
                assert(points[k] == p);
            }
        }
    }
    if c.contains(x, y) {
        lemma_index_in_grid(w, h, x, y);
    }
    assert(before.plotted(x, y).pixels =~= c.stroked(longer).pixels);
}

/// Two strokes one after the other are the stroke of the joined sequence.
pub proof fn lemma_stroke_twice(c: Canvas, first: Seq<(int, int)>, second: Seq<(int, int)>)
    ensures
        c.stroked(first).stroked(second) == c.stroked(first + second),
{
    let joined = first + second;
    let w = c.width as int;
    assert forall|i: int| 0 <= i < c.pixels.len() implies c.stroked(first).stroked(second).pixels[i]
        == c.stroked(joined).pixels[i] by {
        let p = (i % w, i / w);
        if first.contains(p) {
            let k = choose|k: int| 0 <= k < first.len() && first[k] == p;
            assert(joined[k] == p);
        }
        if second.contains(p) {
            let k = choose|k: int| 0 <= k < second.len() && second[k] == p;
            assert(joined[first.len() + k] == p);
        }
        if joined.contains(p) {
            let k = choose|k: int| 0 <= k < joined.len() && joined[k] == p;
            if k < first.len() {
                assert(first[k] == p);
            } else {
                assert(second[k - first.len()] == p);
            }
        }
    }
    assert(c.stroked(first).stroked(second).pixels =~= c.stroked(joined).pixels);
}

/// A canvas of pixel words with a background colour and a drawing colour.
pub struct Framebuffer {
    width: usize,
    height: usize,
    buffer: Vec<u32>,
    background_color: Color,
    current_color: Color,
}

impl View for Framebuffer {
    type V = Canvas;

    closed spec fn view(&self) -> Canvas {
        Canvas {
            width: self.width as nat,
            height: self.height as nat,
            pixels: self.buffer@,
            background: self.background_color,
            current: self.current_color,
        }
    }
}

impl Framebuffer {
    /// The buffer holds one word for each pixel.
    pub open spec fn wf(&self) -> bool {
        self@.wf()
    }

    /// A framebuffer of `width` by `height` pixels, all black, that draws in
    /// white.
    pub fn new(width: usize, height: usize) -> (fb: Framebuffer)
        requires
            width * height <= usize::MAX,
        ensures
            fb.wf(),
            fb@ == Canvas::blank(width as nat, height as nat),
    {
        let background_color = Color::black();
        let current_color = Color::white();
        let word: u32 = background_color.to_hex();
        let fb = Framebuffer {
            width,
            height,
            buffer: vec![word; width * height],
            background_color,
            current_color,
        };
        assert(fb@.pixels =~= Canvas::blank(width as nat, height as nat).pixels);
        fb
    }

    /// The number of pixels in a row.
    pub fn width(&self) -> (w: usize)
        ensures
            w == self@.width,
    {
        self.width
    }

    /// The number of rows.
    pub fn height(&self) -> (h: usize)
        ensures
            h == self@.height,
    {
        self.height
    }

    /// The colour that `clear` fills the canvas with.
    pub fn background_color(&self) -> (c: Color)
        ensures
            c == self@.background,
    {
        self.background_color
    }

    /// The colour that drawing operations write.
    pub fn current_color(&self) -> (c: Color)
        ensures
            c == self@.current,
    {
        self.current_color
    }

    /// Sets the colour used by `clear`; no pixel changes.
    pub fn set_background_color(&mut self, color: Color)
        ensures
            final(self)@ == (Canvas { background: color, ..old(self)@ }),
    {
        self.background_color = color;
    }

    /// Sets the colour used by the drawing operations that follow; no pixel
    /// changes.
    pub fn set_current_color(&mut self, color: Color)
        ensures
            final(self)@ == (Canvas { current: color, ..old(self)@ }),
    {
        self.current_color = color;
    }

    /// Resets every pixel to the background colour: the buffer is replaced by
    /// a fresh one of the same length.
    pub fn clear(&mut self)
        ensures
            final(self)@ == old(self)@.cleared(),
            forall|i: int|
                0 <= i < final(self)@.pixels.len() ==> final(self)@.pixels[i] == old(
                    self,
                )@.background.packed(),
    {
        let word: u32 = self.background_color.to_hex();
        self.buffer = vec![word; self.buffer.len()];
        assert(self@.pixels =~= old(self)@.cleared().pixels);
    }

    /// Sets the pixel `(x, y)` to the drawing colour. A point outside the
    /// canvas is ignored.
    pub fn point(&mut self, x: isize, y: isize)
        requires
            old(self).wf(),
        ensures
            final(self).wf(),
            final(self)@ == old(self)@.plotted(x as int, y as int),
    {
        if x >= 0 && y >= 0 && (x as usize) < self.width && (y as usize) < self.height {
            proof {
                lemma_index_in_grid(self.width as int, self.height as int, x as int, y as int);
            }
            assert(self.buffer.len() == self.width * self.height);
            let idx: usize = (y as usize) * self.width + (x as usize);
            let word: u32 = self.current_color.to_hex();
            self.buffer[idx] = word;
        }
    }

    /// The pixel words, row by row from the top.
    pub fn get_buffer(&self) -> (buffer: &Vec<u32>)
        ensures
            buffer@ == self@.pixels,
            self.wf() ==> buffer@.len() == self@.width * self@.height,
    {
        &self.buffer
    }

    /// Repaints the whole canvas from a grid with one cell per pixel: the
    /// drawing colour for a live cell, the background colour for a dead one.
    pub fn update_buffer(&mut self, grid: &[bool])
        requires
            grid@.len() == old(self)@.pixels.len(),
        ensures
            final(self)@ == old(self)@.painted(grid@),
    {
        let on: u32 = self.current_color.to_hex();
        let off: u32 = self.background_color.to_hex();
        let n: usize = self.buffer.len();
        let mut i: usize = 0;
        while i < n
            invariant
                i <= n,
                n == self.buffer@.len(),
                n == grid@.len(),
                on == old(self)@.current.packed(),
                off == old(self)@.background.packed(),
                self.width == old(self).width,
                self.height == old(self).height,
                self.background_color == old(self).background_color,
                self.current_color == old(self).current_color,
                forall|j: int|
                    0 <= j < i ==> self.buffer@[j] == if grid@[j] {
                        on
                    } else {
                        off
                    },
            decreases n - i,
        {
            self.buffer[i] = if grid[i] {
                on
            } else {
                off
            };
            i += 1;
        }
        assert(self@.pixels =~= old(self)@.painted(grid@).pixels);
    }
}

} // verus!
