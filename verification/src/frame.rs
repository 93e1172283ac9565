//! The frame loop's decisions: what one turn of the loop does to the grid and
//! to the framebuffer, and whether the loop goes on.
//!
//! The caller owns the window. Each turn it reports whether the window is
//! still open and whether the cancel key is down, and acts on the answer: it
//! shows the buffer and waits, or it stops and may save the last picture.

use vstd::prelude::*;
use vstd::arithmetic::div_mod::lemma_fundamental_div_mod;
use vstd::arithmetic::div_mod::lemma_fundamental_div_mod_converse;
use crate::framebuffer::Canvas;
use crate::framebuffer::Framebuffer;
use crate::framebuffer::lemma_stroke_nothing;
use crate::framebuffer::lemma_stroke_then_plot;
use crate::grid::lemma_index_in_grid;
use crate::life::next_generation;
use crate::life::update_state;

verus! {

/// What the caller does after a turn of the loop.
#[derive(Clone, Copy, Debug, PartialEq, Eq, Structural)]
pub enum FrameAction {
    /// Show the framebuffer, wait for the frame delay and come back.
    Present,
    /// Leave the loop.
    Stop,
}

/// Whether the pixel `(px, py)` lies in the square of a live cell, when each
/// cell of the board is drawn as a square of `pixel_size` by `pixel_size`
/// pixels.
pub open spec fn shows_live_cell(
    state: Seq<bool>,
    board_width: int,
    board_height: int,
    pixel_size: int,
    px: int,
    py: int,
) -> bool {
    pixel_size > 0 && px / pixel_size < board_width && py / pixel_size < board_height && state[(py
        / pixel_size) * board_width + px / pixel_size]
}

/// The canvas with the board drawn on it: the drawing colour in the squares
/// of live cells, the background colour everywhere else.
pub open spec fn rendered(
    c: Canvas,
    state: Seq<bool>,
    board_width: int,
    board_height: int,
    pixel_size: int,
) -> Canvas {
    Canvas {
        pixels: Seq::new(
            c.pixels.len(),
            |i: int|
                if shows_live_cell(
                    state,
                    board_width,
                    board_height,
                    pixel_size,
                    i % (c.width as int),
                    i / (c.width as int),
                ) {
                    c.current.packed()
                } else {
                    c.background.packed()
                },
        ),
        ..c
    }
}

/// The pixels of the square with the given top left corner, row by row.
spec fn square_points(left: int, top: int, size: int) -> Seq<(int, int)> {
    Seq::new((size * size) as nat, |k: int| (left + k % size, top + k / size))
}

/// The pixels of a square are those whose coordinates lie within `size` of
/// its corner.
proof fn lemma_square_points(left: int, top: int, size: int, px: int, py: int)
    requires
        0 <= size,
    ensures
        square_points(left, top, size).contains((px, py)) <==> (left <= px < left + size && top
            <= py < top + size),
{
    let square = square_points(left, top, size);
    assert(size * size >= 0) by (nonlinear_arith)
        requires
            size >= 0,
    ;
    if left <= px < left + size && top <= py < top + size {
        lemma_index_in_grid(size, size, px - left, py - top);
        let k = (py - top) * size + (px - left);
        assert(square[k] == (px, py));
    }
    if square.contains((px, py)) {
        let k = choose|k: int| 0 <= k < square.len() && square[k] == (px, py);
        assert(0 <= k % size < size && 0 <= k / size < size) by (nonlinear_arith)
            requires
                0 <= k < size * size,
                0 < size,
        ;
    }
}

/// A pixel lies in the square of the cell in column `px / pixel_size`.
proof fn lemma_cell_of_pixel(p: int, cell: int, pixel_size: int)
    requires
        0 <= p,
        0 < pixel_size,
    ensures
        (cell * pixel_size <= p < cell * pixel_size + pixel_size) <==> p / pixel_size == cell,
        0 <= p / pixel_size,
{
    lemma_fundamental_div_mod(p, pixel_size);
    let q = p / pixel_size;
    let r = p % pixel_size;
    assert(q >= 0 && p == q * pixel_size + r) by (nonlinear_arith)
        requires
            p == pixel_size * q + r,
            0 <= r < pixel_size,
            0 <= p,
    ;
    if cell * pixel_size <= p < cell * pixel_size + pixel_size {
        lemma_fundamental_div_mod_converse(p, pixel_size, cell, p - cell * pixel_size);
    }
}

/// With one pixel to a cell and a board of the size of the canvas, drawing
/// the board is painting the canvas from the grid index by index.
pub proof fn lemma_render_one_to_one(c: Canvas, state: Seq<bool>)
    requires
        c.wf(),
        state.len() == c.pixels.len(),
    ensures
        rendered(c, state, c.width as int, c.height as int, 1) == c.painted(state),
{
    let w = c.width as int;
    let h = c.height as int;
    assert forall|i: int| 0 <= i < c.pixels.len() implies rendered(c, state, w, h, 1).pixels[i]
        == c.painted(state).pixels[i] by {
        assert(w > 0 && 0 <= i % w < w && 0 <= i / w < h && i == w * (i / w) + i % w && w * (i
            / w) == (i / w) * w) by (nonlinear_arith)
            requires
                0 <= i < w * h,
                0 <= w,
                0 <= h,
        ;
    }
    assert(rendered(c, state, w, h, 1).pixels =~= c.painted(state).pixels);
}

/// Whether the pixel `(px, py)` lies in the square of a live cell that is
/// among the first `count` cells of the board, counted row by row.
spec fn shown_before(
    state: Seq<bool>,
    board_width: int,
    board_height: int,
    pixel_size: int,
    px: int,
    py: int,
    count: int,
) -> bool {
    shows_live_cell(state, board_width, board_height, pixel_size, px, py) && (py / pixel_size)
        * board_width + px / pixel_size < count
}

/// Taking the cell `(x, y)` into account: the pixels of its square are shown
/// if it is alive, and no other pixel changes sides.
proof fn lemma_shown_step(
    state: Seq<bool>,
    board_width: int,
    board_height: int,
    pixel_size: int,
    x: int,
    y: int,
    px: int,
    py: int,
)
    requires
        0 <= x < board_width,
        0 <= y < board_height,
        0 <= px,
        0 <= py,
        0 <= pixel_size,
    ensures
        shown_before(
            state,
            board_width,
            board_height,
            pixel_size,
            px,
            py,
            y * board_width + x + 1,
        ) == (shown_before(state, board_width, board_height, pixel_size, px, py, y * board_width + x)
            || (state[y * board_width + x] && square_points(
            x * pixel_size,
            y * pixel_size,
            pixel_size,
        ).contains((px, py)))),
{
    lemma_square_points(x * pixel_size, y * pixel_size, pixel_size, px, py);
    if pixel_size > 0 {
        lemma_cell_of_pixel(px, x, pixel_size);
        lemma_cell_of_pixel(py, y, pixel_size);
        let cx = px / pixel_size;
        let cy = py / pixel_size;
        if cx < board_width && cy < board_height {
            lemma_index_in_grid(board_width, board_height, cx, cy);
            lemma_index_in_grid(board_width, board_height, x, y);
        }
    }
}

/// Once every cell has been taken into account, a pixel is shown exactly if
/// it lies in the square of a live cell.
proof fn lemma_shown_all(
    state: Seq<bool>,
    board_width: int,
    board_height: int,
    pixel_size: int,
    px: int,
    py: int,
)
    requires
        0 <= px,
        0 <= py,
        0 <= board_width,
        0 <= board_height,
    ensures
        shown_before(
            state,
            board_width,
            board_height,
            pixel_size,
            px,
            py,
            board_height * board_width,
        ) == shows_live_cell(state, board_width, board_height, pixel_size, px, py),
        !shown_before(state, board_width, board_height, pixel_size, px, py, 0),
{
    if pixel_size > 0 {
        lemma_cell_of_pixel(px, 0, pixel_size);
        lemma_cell_of_pixel(py, 0, pixel_size);
        let cx = px / pixel_size;
        let cy = py / pixel_size;
        if cx < board_width && cy < board_height {
            lemma_index_in_grid(board_width, board_height, cx, cy);
            assert(board_width * board_height == board_height * board_width)
                by (nonlinear_arith);
        }
    }
}

/// Paints the square of `size` by `size` pixels with the given top left
/// corner, pixel by pixel.
fn fill_square(fb: &mut Framebuffer, left: usize, top: usize, size: usize)
    requires
        old(fb).wf(),
        left + size <= isize::MAX,
        top + size <= isize::MAX,
    ensures
        final(fb).wf(),
        final(fb)@ == old(fb)@.stroked(square_points(left as int, top as int, size as int)),
{
    let ghost canvas = fb@;
    let ghost square = square_points(left as int, top as int, size as int);
    proof {
        lemma_stroke_nothing(canvas);
        assert(square.take(0) =~= Seq::<(int, int)>::empty());
        assert(0 * size == 0) by (nonlinear_arith);
    }
    let mut dy: usize = 0;
    while dy < size
        invariant
            dy <= size,
            fb.wf(),
            canvas.wf(),
            left + size <= isize::MAX,
            top + size <= isize::MAX,
            square == square_points(left as int, top as int, size as int),
            fb@ == canvas.stroked(square.take(dy * size)),
        decreases size - dy,
    {
        let mut dx: usize = 0;
        while dx < size
            invariant
                dx <= size,
                dy < size,
                fb.wf(),
                canvas.wf(),
                left + size <= isize::MAX,
                top + size <= isize::MAX,
                square == square_points(left as int, top as int, size as int),
                fb@ == canvas.stroked(square.take(dy * size + dx)),
            decreases size - dx,
        {
            proof {
                let k = dy * size + dx;
                lemma_index_in_grid(size as int, size as int, dx as int, dy as int);
                lemma_stroke_then_plot(canvas, square.take(k), left + dx, top + dy);
                assert(square.take(k + 1) =~= square.take(k).push((left + dx, top + dy)));
            }
            fb.point((left + dx) as isize, (top + dy) as isize);
            dx += 1;
        }
        assert((dy + 1) * size == dy * size + size) by (nonlinear_arith);
        dy += 1;
    }
    assert(square.take(dy * size) =~= square);
}

/// Draws the board: clears the canvas and paints every live cell as a square
/// of `pixel_size` by `pixel_size` pixels. Squares that reach past the canvas
/// are cut off at its edge.
pub fn render(
    fb: &mut Framebuffer,
    state: &[bool],
    board_width: usize,
    board_height: usize,
    pixel_size: usize,
)
    requires
        old(fb).wf(),
        state@.len() == board_width * board_height,
        board_width * pixel_size <= isize::MAX,
        board_height * pixel_size <= isize::MAX,
    ensures
        final(fb).wf(),
        final(fb)@ == rendered(
            old(fb)@,
            state@,
            board_width as int,
            board_height as int,
            pixel_size as int,
        ),
{
    let ghost canvas = fb@;
    let ghost bw = board_width as int;
    let ghost bh = board_height as int;
    let ghost ps = pixel_size as int;
    let ghost w = canvas.width as int;
    assert(state.len() == board_width * board_height);
    fb.clear();
    proof {
        assert(0 * board_width == 0) by (nonlinear_arith);
        assert forall|i: int| 0 <= i < canvas.pixels.len() implies #[trigger] fb@.pixels[i]
            == if shown_before(state@, bw, bh, ps, i % w, i / w, 0) {
            canvas.current.packed()
        } else {
            canvas.background.packed()
        } by {
            assert(0 <= i % w && 0 <= i / w) by (nonlinear_arith)
                requires
                    0 <= i < w * canvas.height,
                    0 <= w,
            ;
            lemma_shown_all(state@, bw, bh, ps, i % w, i / w);
        }
    }
    let mut y: usize = 0;
    while y < board_height
        invariant
            y <= board_height,
            bw == board_width,
            bh == board_height,
            ps == pixel_size,
            w == canvas.width,
            canvas.wf(),
            fb.wf(),
            board_width * board_height <= usize::MAX,
            state@.len() == board_width * board_height,
            board_width * pixel_size <= isize::MAX,
            board_height * pixel_size <= isize::MAX,
            fb@.width == canvas.width,
            fb@.height == canvas.height,
            fb@.background == canvas.background,
            fb@.current == canvas.current,
            fb@.pixels.len() == canvas.pixels.len(),
            forall|i: int|
                0 <= i < canvas.pixels.len() ==> #[trigger] fb@.pixels[i] == if shown_before(
                    state@,
                    bw,
                    bh,
                    ps,
                    i % w,
                    i / w,
                    y * board_width,
                ) {
                    canvas.current.packed()
                } else {
                    canvas.background.packed()
                },
        decreases board_height - y,
    {
        let mut x: usize = 0;
        while x < board_width
            invariant
                x <= board_width,
                y < board_height,
                bw == board_width,
                bh == board_height,
                ps == pixel_size,
                w == canvas.width,
                canvas.wf(),
                fb.wf(),
                board_width * board_height <= usize::MAX,
                state@.len() == board_width * board_height,
                board_width * pixel_size <= isize::MAX,
                board_height * pixel_size <= isize::MAX,
                fb@.width == canvas.width,
                fb@.height == canvas.height,
                fb@.background == canvas.background,
                fb@.current == canvas.current,
                fb@.pixels.len() == canvas.pixels.len(),
                forall|i: int|
                    0 <= i < canvas.pixels.len() ==> #[trigger] fb@.pixels[i] == if shown_before(
                        state@,
                        bw,
                        bh,
                        ps,
                        i % w,
                        i / w,
                        y * board_width + x,
                    ) {
                        canvas.current.packed()
                    } else {
                        canvas.background.packed()
                    },
            decreases board_width - x,
        {
            proof {
                lemma_index_in_grid(bw, bh, x as int, y as int);
                assert(0 <= x * pixel_size && x * pixel_size + pixel_size <= board_width
                    * pixel_size && 0 <= y * pixel_size && y * pixel_size + pixel_size
                    <= board_height * pixel_size) by (nonlinear_arith)
                    requires
                        0 <= x < board_width,
                        0 <= y < board_height,
                        0 <= pixel_size,
                ;
            }
            let ghost shown = fb@;
            let alive: bool = state[y * board_width + x];
            if alive {
                fill_square(fb, x * pixel_size, y * pixel_size, pixel_size);
            }
            proof {
                assert forall|i: int| 0 <= i < canvas.pixels.len() implies #[trigger] fb@.pixels[i]
                    == if shown_before(state@, bw, bh, ps, i % w, i / w, y * board_width + x + 1) {
                    canvas.current.packed()
                } else {
                    canvas.background.packed()
                } by {
                    assert(0 <= i % w && 0 <= i / w) by (nonlinear_arith)
                        requires
                            0 <= i < w * canvas.height,
                            0 <= w,
                    ;
                    lemma_shown_step(state@, bw, bh, ps, x as int, y as int, i % w, i / w);
                    assert(shown.pixels[i] == if shown_before(
                        state@,
                        bw,
                        bh,
                        ps,
                        i % w,
                        i / w,
                        y * board_width + x,
                    ) {
                        canvas.current.packed()
                    } else {
                        canvas.background.packed()
                    });
                }
            }
            x += 1;
        }
        assert((y + 1) * board_width == y * board_width + board_width) by (nonlinear_arith);
        y += 1;
    }
    proof {
        assert forall|i: int| 0 <= i < canvas.pixels.len() implies fb@.pixels[i] == rendered(
            canvas,
            state@,
            bw,
            bh,
            ps,
        ).pixels[i] by {
            assert(0 <= i % w && 0 <= i / w) by (nonlinear_arith)
                requires
                    0 <= i < w * canvas.height,
                    0 <= w,
            ;
            lemma_shown_all(state@, bw, bh, ps, i % w, i / w);
        }
        assert(fb@.pixels =~= rendered(canvas, state@, bw, bh, ps).pixels);
    }
}

/// One turn of the frame loop. If the window has been closed or the cancel
/// key is down, nothing changes and the loop is to stop. Otherwise the grid
/// advances by one generation, the new generation is drawn, and the picture is
/// to be presented.
pub fn advance_frame(
    state: &mut Vec<bool>,
    fb: &mut Framebuffer,
    board_width: usize,
    board_height: usize,
    pixel_size: usize,
    window_open: bool,
    cancel_pressed: bool,
) -> (action: FrameAction)
    requires
        old(fb).wf(),
        old(state)@.len() == board_width * board_height,
        board_width * pixel_size <= isize::MAX,
        board_height * pixel_size <= isize::MAX,
    ensures
        final(fb).wf(),
        final(state)@.len() == old(state)@.len(),
        !window_open || cancel_pressed ==> action == FrameAction::Stop && final(state)@ == old(
            state,
        )@ && final(fb)@ == old(fb)@,
        window_open && !cancel_pressed ==> action == FrameAction::Present && final(state)@
            == next_generation(old(state)@, board_width as int, board_height as int) && final(fb)@
            == rendered(
            old(fb)@,
            final(state)@,
            board_width as int,
            board_height as int,
            pixel_size as int,
        ),
{
    if !window_open || cancel_pressed {
        return FrameAction::Stop;
    }
    let next: Vec<bool> = update_state(state.as_slice(), board_width, board_height);
    *state = next;
    render(fb, state.as_slice(), board_width, board_height, pixel_size);
    FrameAction::Present
}

} // verus!
