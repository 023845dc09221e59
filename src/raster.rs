//! The order in which a frame's pixels are rendered.
//!
//! A frame of `hsize` by `vsize` pixels is walked row by row from the top
//! left pixel `(0, 0)`: `x` runs fastest, `y` slowest.

use vstd::prelude::*;

verus! {

/// The position of pixel `(x, y)` in the walk of a frame `hsize` wide.
pub open spec fn pixel_index(hsize: int, x: int, y: int) -> int {
    y * hsize + x
}

/// Returns every pixel of a `hsize` by `vsize` frame once, in row-major
/// order: pixel `(x, y)` comes at position `y * hsize + x`.
pub fn pixel_coords(hsize: u32, vsize: u32) -> (r: Vec<(u32, u32)>)
    requires
        hsize as int * vsize as int <= usize::MAX,
    ensures
        r@.len() == hsize as int * vsize as int,
        forall|x: int, y: int|
            0 <= x < hsize && 0 <= y < vsize ==> r@[#[trigger] pixel_index(hsize as int, x, y)]
                == (x as u32, y as u32),
{
    let mut r: Vec<(u32, u32)> = Vec::new();
    let mut y: u32 = 0;
    while y < vsize
        invariant
            y <= vsize,
            hsize as int * vsize as int <= usize::MAX,
            r@.len() == y as int * hsize as int,
            forall|px: int, py: int|
                0 <= px < hsize && 0 <= py < y ==> r@[#[trigger] pixel_index(hsize as int, px, py)]
                    == (px as u32, py as u32),
        decreases vsize - y,
    {
        let ghost row_start = y as int * hsize as int;
        let mut x: u32 = 0;
        while x < hsize
            invariant
                x <= hsize,
                y < vsize,
                row_start == y as int * hsize as int,
                r@.len() == row_start + x,
                forall|px: int, py: int|
                    0 <= px < hsize && 0 <= py < y ==> r@[#[trigger] pixel_index(
                        hsize as int,
                        px,
                        py,
                    )] == (px as u32, py as u32),
                forall|px: int|
                    0 <= px < x ==> r@[#[trigger] pixel_index(hsize as int, px, y as int)] == (
                        px as u32,
                        y as u32,
                    ),
            decreases hsize - x,
        {
            proof {
                assert forall|px: int, py: int| 0 <= px < hsize && 0 <= py < y implies pixel_index(
                    hsize as int,
                    px,
                    py,
                ) < row_start by {
                    assert(py * hsize + px < (py + 1) * hsize) by (nonlinear_arith)
                        requires
                            px < hsize,
                    ;
                    assert((py + 1) * hsize <= y * hsize) by (nonlinear_arith)
                        requires
                            py + 1 <= y,
                            hsize >= 0,
                    ;
                }
            }
            r.push((x, y));
            x = x + 1;
        }
        proof {
            assert forall|px: int, py: int|
                0 <= px < hsize && 0 <= py < y + 1 implies r@[#[trigger] pixel_index(
                hsize as int,
                px,
                py,
            )] == (px as u32, py as u32) by {
            }
            assert((y + 1) as int * hsize as int == row_start + hsize) by (nonlinear_arith)
                requires
                    row_start == y as int * hsize as int,
            ;
            assert((y + 1) as int * hsize as int <= vsize as int * hsize as int) by (
            nonlinear_arith)
                requires
                    y + 1 <= vsize,
                    hsize >= 0,
            ;
        }
        y = y + 1;
    }
    assert(y as int * hsize as int == hsize as int * vsize as int) by (nonlinear_arith)
        requires
            y == vsize,
    ;
    r
}

} // verus!
