//! Polygon outlines: one line per edge, the last edge closing the outline.

use vstd::prelude::*;
use crate::framebuffer::Framebuffer;
use crate::framebuffer::lemma_stroke_nothing;
use crate::framebuffer::lemma_stroke_twice;
use crate::line::line_points;
use crate::line::lemma_line_endpoints;

verus! {

/// The index of the vertex that follows vertex `k` among `n`: the first
/// vertex follows the last.
pub open spec fn next_vertex(k: int, n: int) -> int {
    if k + 1 == n {
        0
    } else {
        k + 1
    }
}

/// The pixels of the edge that leaves vertex `k`.
pub open spec fn edge_points(vertices: Seq<(isize, isize)>, k: int) -> Seq<(int, int)> {
    let a = vertices[k];
    let b = vertices[next_vertex(k, vertices.len() as int)];
    line_points(a.0 as int, a.1 as int, b.0 as int, b.1 as int)
}

/// The pixels of the first `k` edges, in drawing order.
pub open spec fn outline_points(vertices: Seq<(isize, isize)>, k: int) -> Seq<(int, int)>
    decreases k,
{
    if k <= 0 {
        Seq::empty()
    } else {
        outline_points(vertices, k - 1) + edge_points(vertices, k - 1)
    }
}

/// The pixels of the closed outline through all the vertices.
pub open spec fn polygon_points(vertices: Seq<(isize, isize)>) -> Seq<(int, int)> {
    outline_points(vertices, vertices.len() as int)
}

/// The outline is closed: every edge starts at its own vertex and ends at the
/// vertex that follows, and the edge that leaves the last vertex ends at the
/// first.
pub proof fn lemma_outline_closed(vertices: Seq<(isize, isize)>, k: int)
    requires
        0 <= k < vertices.len(),
    ensures
        edge_points(vertices, k).len() > 0,
        edge_points(vertices, k).first() == (vertices[k].0 as int, vertices[k].1 as int),
        edge_points(vertices, k).last() == (
            vertices[next_vertex(k, vertices.len() as int)].0 as int,
            vertices[next_vertex(k, vertices.len() as int)].1 as int,
        ),
        next_vertex(vertices.len() - 1, vertices.len() as int) == 0,
{
    let a = vertices[k];
    let b = vertices[next_vertex(k, vertices.len() as int)];
    lemma_line_endpoints(a.0 as int, a.1 as int, b.0 as int, b.1 as int);
}

impl Framebuffer {
    /// Draws the closed outline through `vertices` in the drawing colour: a
    /// line from each vertex to the next, and one from the last back to the
    /// first.
    pub fn draw_polygon(&mut self, vertices: &[(isize, isize)])
        requires
            old(self).wf(),
        ensures
            final(self).wf(),
            final(self)@ == old(self)@.stroked(polygon_points(vertices@)),
    {
        let ghost canvas = self@;
        let n: usize = vertices.len();
        let mut k: usize = 0;
        proof {
            lemma_stroke_nothing(canvas);
        }
        while k < n
            invariant
                k <= n,
                n == vertices@.len(),
                self.wf(),
                self@ == canvas.stroked(outline_points(vertices@, k as int)),
            decreases n - k,
        {
            let a: (isize, isize) = vertices[k];
            let b: (isize, isize) = if k + 1 == n {
                vertices[0]
            } else {
                vertices[k + 1]
            };
            self.draw_line(a, b);
            proof {
                lemma_stroke_twice(
                    canvas,
                    outline_points(vertices@, k as int),
                    edge_points(vertices@, k as int),
                );
            }
            k += 1;
        }
    }
}

} // verus!
