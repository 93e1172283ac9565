//! Conway's Game of Life on a toroidal grid, rendered into an off-screen
//! pixel buffer that can be serialised as a 24-bit bitmap.
//!
//! * [`life`] computes one generation from the one before.
//! * [`pattern`] seeds a grid with patterns of live cells.
//! * [`framebuffer`], [`line`] and [`polygon`] draw on a canvas of pixels.
//! * [`frame`] decides what one turn of the display loop does.
//! * [`bmp`] writes a canvas as the bytes of a bitmap file.
//!
//! Every function states in its contract what it computes, over mathematical
//! models (sequences of booleans for grids, [`framebuffer::Canvas`] for
//! framebuffers), and is verified against that contract.

pub mod bmp;
pub mod color;
pub mod frame;
pub mod framebuffer;
pub mod grid;
pub mod life;
pub mod line;
pub mod pattern;
pub mod polygon;
