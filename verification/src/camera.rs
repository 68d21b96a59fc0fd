//! The camera's sample walk: every pixel of the grid, each repeated once per sample,
//! so that chunks of `samples per pixel` consecutive samples are the pixels in order.
use vstd::prelude::*;
use crate::gens::{grid, span};

verus! {

/// The cells of `grid(sx, ex, sy, ey)`, each repeated `repeat` times in a row.
pub open spec fn expanded_grid(sx: int, ex: int, sy: int, ey: int, repeat: nat) -> Seq<(int, int)> {
    let g = grid(sx, ex, sy, ey);
    Seq::new(g.len() * repeat, |k: int| g[k / (repeat as int)])
}

/// Where sample `s` of cell number `p` stands when every cell is repeated `repeat` times.
proof fn lemma_sample_index(repeat: int, p: int, s: int)
    requires
        0 <= s < repeat,
        0 <= p,
    ensures
        (p * repeat + s) / repeat == p,
{
    vstd::arithmetic::div_mod::lemma_fundamental_div_mod_converse(p * repeat + s, repeat, p, s);
}

/// Every cell `(x, y)` with `sx <= x < ex` and `sy <= y < ey`, row by row, each repeated
/// `repeat` times in a row.
pub fn xyrange_expanded(sx: u32, ex: u32, sy: u32, ey: u32, repeat: u32) -> (cells: Vec<(u32, u32)>)
    requires
        sx <= ex,
        sy <= ey,
        (ex - sx) * (ey - sy) <= u32::MAX,
        (ex - sx) * (ey - sy) * repeat <= u32::MAX,
    ensures
        cells@.len() == (ex - sx) * (ey - sy) * repeat,
        cells@.len() == expanded_grid(sx as int, ex as int, sy as int, ey as int, repeat as nat).len(),
        forall|k: int|
            0 <= k < cells@.len() ==> (#[trigger] cells@[k].0 as int, cells@[k].1 as int)
                == expanded_grid(sx as int, ex as int, sy as int, ey as int, repeat as nat)[k],
{
    let mut ret: Vec<(u32, u32)> = Vec::with_capacity(((ex - sx) * (ey - sy) * repeat) as usize);
    let ghost nx: int = (ex - sx) as int;
    let ghost r: int = repeat as int;
    let ghost g = grid(sx as int, ex as int, sy as int, ey as int);
    let ghost e = expanded_grid(sx as int, ex as int, sy as int, ey as int, repeat as nat);
    proof {
        assert(span(sx as int, ex as int) == nx);
        assert(span(sy as int, ey as int) == ey - sy);
        assert(0 * nx * r == 0) by (nonlinear_arith);
    }
    let mut y: u32 = sy;
    while y < ey
        invariant
            sy <= y <= ey,
            sx <= ex,
            nx == ex - sx,
            r == repeat,
            g == grid(sx as int, ex as int, sy as int, ey as int),
            e == expanded_grid(sx as int, ex as int, sy as int, ey as int, repeat as nat),
            g.len() == nx * (ey - sy),
            ret@.len() == (y - sy) * nx * r,
            forall|k: int|
                0 <= k < ret@.len() ==> (#[trigger] ret@[k].0 as int, ret@[k].1 as int) == e[k],
        decreases ey - y,
    {
        let mut x: u32 = sx;
        while x < ex
            invariant
                sy <= y < ey,
                sx <= x <= ex,
                nx == ex - sx,
                r == repeat,
                g == grid(sx as int, ex as int, sy as int, ey as int),
                e == expanded_grid(sx as int, ex as int, sy as int, ey as int, repeat as nat),
                g.len() == nx * (ey - sy),
                ret@.len() == ((y - sy) * nx + (x - sx)) * r,
                forall|k: int|
                    0 <= k < ret@.len() ==> (#[trigger] ret@[k].0 as int, ret@[k].1 as int)
                        == e[k],
            decreases ex - x,
        {
            let ghost p: int = (y - sy) * nx + (x - sx);
            proof {
                vstd::arithmetic::div_mod::lemma_fundamental_div_mod_converse(
                    p,
                    nx,
                    (y - sy) as int,
                    (x - sx) as int,
                );
                assert(p < nx * (ey - sy)) by (nonlinear_arith)
                    requires
                        p == (y - sy) * nx + (x - sx),
                        0 <= x - sx < nx,
                        0 <= y - sy < ey - sy,
                ;
                assert(g[p] == (x as int, y as int));
            }
            let mut s: u32 = 0;
            while s < repeat
                invariant
                    0 <= p < g.len(),
                    g[p] == (x as int, y as int),
                    r == repeat,
                    g == grid(sx as int, ex as int, sy as int, ey as int),
                    e == expanded_grid(sx as int, ex as int, sy as int, ey as int, repeat as nat),
                    s <= repeat,
                    ret@.len() == p * r + s,
                    forall|k: int|
                        0 <= k < ret@.len() ==> (#[trigger] ret@[k].0 as int, ret@[k].1 as int)
                            == e[k],
                decreases repeat - s,
            {
                proof {
                    lemma_sample_index(r, p, s as int);
                    assert(p * r + s < g.len() * r) by (nonlinear_arith)
                        requires
                            0 <= p < g.len(),
                            0 <= s < r,
                    ;
                }
                ret.push((x, y));
                s += 1;
            }
            proof {
                assert(p * r + r == (p + 1) * r) by (nonlinear_arith);
            }
            x += 1;
        }
        proof {
            assert(((y - sy) * nx + nx) * r == (y + 1 - sy) * nx * r) by (nonlinear_arith);
        }
        y += 1;
    }
    proof {
        assert((ey - sy) * nx * r == g.len() * r) by (nonlinear_arith)
            requires
                g.len() == nx * (ey - sy),
        ;
    }
    ret
}

/// The samples come in chunks of `repeat`: samples `p * repeat` up to `(p + 1) * repeat`
/// all belong to cell number `p` of the row-major grid, so that folding each chunk gives
/// the pixels in the order in which an image stores them.
pub proof fn lemma_sample_chunks(sx: int, ex: int, sy: int, ey: int, repeat: nat, p: int, s: int)
    requires
        0 <= p < grid(sx, ex, sy, ey).len(),
        0 <= s < repeat,
    ensures
        p * repeat + s < expanded_grid(sx, ex, sy, ey, repeat).len(),
        expanded_grid(sx, ex, sy, ey, repeat)[p * repeat + s] == grid(sx, ex, sy, ey)[p],
{
    lemma_sample_index(repeat as int, p, s);
    assert(p * repeat + s < grid(sx, ex, sy, ey).len() * repeat) by (nonlinear_arith)
        requires
            0 <= p < grid(sx, ex, sy, ey).len(),
            0 <= s < repeat,
    ;
}


/// The sample walk over `sx..ex` by `sy..ey` holds exactly `(ex - sx) * (ey - sy) * repeat`
/// samples: sample `s` of the cell `(x, y)` stands at `((y - sy) * (ex - sx) + (x - sx)) *
/// repeat + s`, so every cell is sampled `repeat` times, row by row, and nothing else is.
pub proof fn lemma_expanded_samples(sx: int, ex: int, sy: int, ey: int, repeat: nat)
    requires
        sx <= ex,
        sy <= ey,
    ensures
        expanded_grid(sx, ex, sy, ey, repeat).len() == (ex - sx) * (ey - sy) * repeat,
        forall|x: int, y: int, s: int|
            sx <= x < ex && sy <= y < ey && 0 <= s < repeat ==> #[trigger] expanded_grid(
                sx,
                ex,
                sy,
                ey,
                repeat,
            )[((y - sy) * (ex - sx) + (x - sx)) * repeat + s] == (x, y),
{
    let nx = ex - sx;
    let ny = ey - sy;
    assert(span(sx, ex) == nx);
    assert(span(sy, ey) == ny);
    assert(grid(sx, ex, sy, ey).len() == nx * ny);
    assert(nx * ny * repeat == (ex - sx) * (ey - sy) * repeat);
    assert forall|x: int, y: int, s: int|
        sx <= x < ex && sy <= y < ey && 0 <= s < repeat implies #[trigger] expanded_grid(
        sx,
        ex,
        sy,
        ey,
        repeat,
    )[((y - sy) * (ex - sx) + (x - sx)) * repeat + s] == (x, y) by {
        let p = (y - sy) * nx + (x - sx);
        assert(p < nx * ny) by (nonlinear_arith)
            requires
                p == (y - sy) * nx + (x - sx),
                0 <= x - sx < nx,
                0 <= y - sy < ny,
        ;
        lemma_sample_chunks(sx, ex, sy, ey, repeat, p, s);
        vstd::arithmetic::div_mod::lemma_fundamental_div_mod_converse(p, nx, y - sy, x - sx);
    }
}

} // verus!
