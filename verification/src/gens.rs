//! Scene generators: the pixel grid walked in row-major order, and the first
//! test image, a 256 by 256 gradient.
use vstd::prelude::*;
use crate::render::{Image, RGB};

verus! {

/// The number of integers `i` with `s <= i < e`.
pub open spec fn span(s: int, e: int) -> nat {
    if s < e {
        (e - s) as nat
    } else {
        0
    }
}

/// The cells `(x, y)` with `sx <= x < ex` and `sy <= y < ey`, row by row
/// (`y` outer, `x` inner).
pub open spec fn grid(sx: int, ex: int, sy: int, ey: int) -> Seq<(int, int)> {
    let nx = span(sx, ex);
    Seq::new(nx * span(sy, ey), |k: int| (sx + k % (nx as int), sy + k / (nx as int)))
}

/// The position of cell `(x, y)` in a row-major walk of rows `nx` cells wide.
proof fn lemma_cell_index(nx: int, dx: int, dy: int)
    requires
        0 <= dx < nx,
        0 <= dy,
    ensures
        (dy * nx + dx) % nx == dx,
        (dy * nx + dx) / nx == dy,
{
    vstd::arithmetic::div_mod::lemma_fundamental_div_mod_converse(dy * nx + dx, nx, dy, dx);
}

/// All cells `(x, y)` with `sx <= x < ex` and `sy <= y < ey`, row by row.
pub fn xyrange(sx: i32, ex: i32, sy: i32, ey: i32) -> (cells: Vec<(i32, i32)>)
    ensures
        cells@.len() == grid(sx as int, ex as int, sy as int, ey as int).len(),
        forall|k: int|
            0 <= k < cells@.len() ==> (#[trigger] cells@[k].0 as int, cells@[k].1 as int) == grid(
                sx as int,
                ex as int,
                sy as int,
                ey as int,
            )[k],
{
    let ghost nx: int = span(sx as int, ex as int) as int;
    let ghost g = grid(sx as int, ex as int, sy as int, ey as int);
    let mut cells: Vec<(i32, i32)> = Vec::new();
    if sx >= ex || sy >= ey {
        assert(g.len() == 0) by (nonlinear_arith)
            requires
                g.len() == span(sx as int, ex as int) * span(sy as int, ey as int),
                span(sx as int, ex as int) == 0 || span(sy as int, ey as int) == 0,
        ;
        return cells;
    }
    let mut y: i32 = sy;
    while y < ey
        invariant
            sx < ex,
            sy <= y <= ey,
            nx == ex - sx,
            g == grid(sx as int, ex as int, sy as int, ey as int),
            cells@.len() == (y - sy) * nx,
            forall|k: int|
                0 <= k < cells@.len() ==> (#[trigger] cells@[k].0 as int, cells@[k].1 as int)
                    == g[k],
        decreases ey - y,
    {
        let mut x: i32 = sx;
        while x < ex
            invariant
                sx <= x <= ex,
                sy <= y < ey,
                nx == ex - sx,
                g == grid(sx as int, ex as int, sy as int, ey as int),
                cells@.len() == (y - sy) * nx + (x - sx),
                forall|k: int|
                    0 <= k < cells@.len() ==> (#[trigger] cells@[k].0 as int, cells@[k].1 as int)
                        == g[k],
            decreases ex - x,
        {
            proof {
                lemma_cell_index(nx, x - sx, y - sy);
                assert((y - sy) * nx + (x - sx) < span(sx as int, ex as int) * span(
                    sy as int,
                    ey as int,
                )) by (nonlinear_arith)
                    requires
                        0 <= x - sx < nx,
                        0 <= y - sy < ey - sy,
                        nx == span(sx as int, ex as int),
                        ey - sy == span(sy as int, ey as int),
                ;
            }
            cells.push((x, y));
            x += 1;
        }
        proof {
            assert((y - sy) * nx + nx == (y + 1 - sy) * nx) by (nonlinear_arith);
        }
        y += 1;
    }
    proof {
        assert((ey - sy) * nx == nx * (ey - sy)) by (nonlinear_arith);
    }
    cells
}


/// The grid over `sx..ex` by `sy..ey` holds exactly `(ex - sx) * (ey - sy)` cells, the cell
/// `(x, y)` at position `(y - sy) * (ex - sx) + (x - sx)`: every cell once, row by row.
pub proof fn lemma_grid_cells(sx: int, ex: int, sy: int, ey: int)
    requires
        sx <= ex,
        sy <= ey,
    ensures
        grid(sx, ex, sy, ey).len() == (ex - sx) * (ey - sy),
        forall|x: int, y: int|
            sx <= x < ex && sy <= y < ey ==> #[trigger] grid(sx, ex, sy, ey)[(y - sy) * (ex - sx) + (
            x - sx)] == (x, y),
{
    let nx = ex - sx;
    let ny = ey - sy;
    assert forall|x: int, y: int| sx <= x < ex && sy <= y < ey implies #[trigger] grid(
        sx,
        ex,
        sy,
        ey,
    )[(y - sy) * (ex - sx) + (x - sx)] == (x, y) by {
        assert((y - sy) * nx + (x - sx) < nx * ny) by (nonlinear_arith)
            requires
                0 <= x - sx < nx,
                0 <= y - sy < ny,
        ;
        lemma_cell_index(nx, x - sx, y - sy);
    }
}

/// The first test image: 256 by 256 pixels, the pixel in column `x` of row `y` coloured
/// `shade(x, y)`.
pub fn initial<F: Fn(i32, i32) -> RGB>(shade: F) -> (img: Image)
    requires
        forall|x: i32, y: i32| 0 <= x < 256 && 0 <= y < 256 ==> #[trigger] shade.requires((x, y)),
    ensures
        img.width() == 256,
        img.height() == 256,
        img.pixels().len() == 256 * 256,
        forall|k: int|
            0 <= k < 256 * 256 ==> shade.ensures(
                ((k % 256) as i32, (k / 256) as i32),
                #[trigger] img.pixels()[k],
            ),
{
    let width: i32 = 256;
    let height: i32 = 256;
    let cells = xyrange(0, width, 0, height);
    let ghost g = grid(0, 256, 0, 256);
    assert(g.len() == 256 * 256);
    let mut rend: Vec<RGB> = Vec::new();
    let mut i: usize = 0;
    while i < cells.len()
        invariant
            cells@.len() == 256 * 256,
            g == grid(0, 256, 0, 256),
            forall|k: int|
                0 <= k < cells@.len() ==> (#[trigger] cells@[k].0 as int, cells@[k].1 as int)
                    == g[k],
            forall|x: i32, y: i32|
                0 <= x < 256 && 0 <= y < 256 ==> #[trigger] shade.requires((x, y)),
            i <= cells@.len(),
            rend@.len() == i,
            forall|k: int|
                0 <= k < i ==> shade.ensures(
                    ((k % 256) as i32, (k / 256) as i32),
                    #[trigger] rend@[k],
                ),
        decreases cells@.len() - i,
    {
        let (x, y) = cells[i];
        assert((cells@[i as int].0 as int, cells@[i as int].1 as int) == g[i as int]);
        let px = shade(x, y);
        rend.push(px);
        i += 1;
    }
    Image::new(rend, 256, 256)
}

} // verus!
