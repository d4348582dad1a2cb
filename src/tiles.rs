//! Splitting the frame into tiles that are rendered independently, and the
//! position of a pixel in a row-major buffer.
use vstd::prelude::*;
use vstd::arithmetic::div_mod::{lemma_fundamental_div_mod, lemma_fundamental_div_mod_converse, lemma_div_is_ordered};

verus! {

/// A rectangle of pixels: its corner and its size.
#[derive(PartialEq, Eq, Structural, Clone, Copy, Debug)]
pub struct Tile {
    pub x: u32,
    pub y: u32,
    pub width: u32,
    pub height: u32,
}

/// Number of tiles of size `ts` needed to cover `len` pixels.
pub open spec fn tiles_along(len: nat, ts: nat) -> nat {
    if len == 0 || ts == 0 {
        0
    } else {
        ((len - 1) as nat / ts) + 1
    }
}

pub open spec fn min_nat(a: nat, b: nat) -> nat {
    if a <= b {
        a
    } else {
        b
    }
}

/// Tile `k` of a `width` by `height` frame cut into tiles of size `ts`,
/// numbered row by row; those of the last row and column may be smaller.
pub open spec fn tile_of(width: nat, height: nat, ts: nat, k: nat) -> Tile {
    let nx = tiles_along(width, ts);
    let tx = k % nx;
    let ty = k / nx;
    Tile {
        x: (tx * ts) as u32,
        y: (ty * ts) as u32,
        width: min_nat(ts, (width - tx * ts) as nat) as u32,
        height: min_nat(ts, (height - ty * ts) as nat) as u32,
    }
}

pub open spec fn contains(t: Tile, px: nat, py: nat) -> bool {
    t.x <= px < t.x + t.width && t.y <= py < t.y + t.height
}

proof fn lemma_along(len: nat, ts: nat, t: nat)
    requires
        ts > 0,
        t < tiles_along(len, ts),
    ensures
        t * ts < len,
{
    lemma_fundamental_div_mod((len - 1) as int, ts as int);
    let q = (len - 1) as nat / ts;
    assert(t <= q);
    assert(t * ts <= (len - 1) as nat) by (nonlinear_arith)
        requires
            t <= q,
            (len - 1) as nat == ts * q + (len - 1) as nat % ts,
            (len - 1) as nat % ts >= 0,
    ;
}

/// The tiles of a `width` by `height` frame, row by row.
pub fn generate_tiles(width: u32, height: u32, tile_size: u32) -> (r: Vec<Tile>)
    requires
        tile_size > 0,
    ensures
        r@.len() == tiles_along(width as nat, tile_size as nat) * tiles_along(height as nat, tile_size as nat),
        forall|k: int|
            0 <= k < r@.len() ==> #[trigger] r@[k] == tile_of(width as nat, height as nat, tile_size as nat, k as nat),
{
    let ghost ts = tile_size as nat;
    let nx: u32 = if width == 0 { 0 } else { (width - 1) / tile_size + 1 };
    let ny: u32 = if height == 0 { 0 } else { (height - 1) / tile_size + 1 };
    assert(nx == tiles_along(width as nat, ts));
    assert(ny == tiles_along(height as nat, ts));
    let mut r: Vec<Tile> = Vec::new();
    let mut ty: u32 = 0;
    while ty < ny
        invariant
            ty <= ny,
            nx == tiles_along(width as nat, ts),
            ny == tiles_along(height as nat, ts),
            ts == tile_size,
            ts > 0,
            r@.len() == ty * nx,
            forall|k: int| 0 <= k < r@.len() ==> #[trigger] r@[k] == tile_of(width as nat, height as nat, ts, k as nat),
        decreases ny - ty,
    {
        proof {
            lemma_along(height as nat, ts, ty as nat);
        }
        let y: u32 = ty * tile_size;
        let h: u32 = if tile_size <= height - y { tile_size } else { height - y };
        let mut tx: u32 = 0;
        while tx < nx
            invariant
                ty < ny,
                tx <= nx,
                nx == tiles_along(width as nat, ts),
                ts == tile_size,
                ts > 0,
                y == ty * ts,
                y < height,
                h == min_nat(ts, (height - y) as nat),
                r@.len() == ty * nx + tx,
                forall|k: int| 0 <= k < r@.len() ==> #[trigger] r@[k] == tile_of(width as nat, height as nat, ts, k as nat),
            decreases nx - tx,
        {
            proof {
                lemma_along(width as nat, ts, tx as nat);
            }
            let x: u32 = tx * tile_size;
            let w: u32 = if tile_size <= width - x { tile_size } else { width - x };
            let ghost k = r@.len();
            proof {
                lemma_fundamental_div_mod_converse(k as int, nx as int, ty as int, tx as int);
            }
            r.push(Tile { x, y, width: w, height: h });
            tx = tx + 1;
        }
        proof {
            assert((ty + 1) * nx == ty * nx + nx) by (nonlinear_arith);
        }
        ty = ty + 1;
    }
    proof {
        assert(ty * nx == nx * ny) by (nonlinear_arith)
            requires
                ty == ny,
        ;
    }
    r
}

/// The tiles cover the frame once: whatever the tile size, each pixel of
/// the frame lies in exactly one tile, the one at its row and column of tiles.
pub proof fn lemma_tiles_partition(width: nat, height: nat, ts: nat, px: nat, py: nat)
    requires
        ts > 0,
        px < width,
        py < height,
        width <= u32::MAX,
        height <= u32::MAX,
    ensures
        ({
            let nx = tiles_along(width, ts);
            let k0 = (py / ts) * nx + px / ts;
            &&& k0 < nx * tiles_along(height, ts)
            &&& contains(tile_of(width, height, ts, k0), px, py)
            &&& forall|k: nat|
                k < nx * tiles_along(height, ts) && #[trigger] contains(tile_of(width, height, ts, k), px, py)
                    ==> k == k0
        }),
{
    let nx = tiles_along(width, ts);
    let ny = tiles_along(height, ts);
    let tx0 = px / ts;
    let ty0 = py / ts;
    lemma_div_is_ordered(px as int, (width - 1) as int, ts as int);
    lemma_div_is_ordered(py as int, (height - 1) as int, ts as int);
    assert(tx0 < nx);
    assert(ty0 < ny);
    let k0 = ty0 * nx + tx0;
    lemma_fundamental_div_mod_converse(k0 as int, nx as int, ty0 as int, tx0 as int);
    assert(k0 < nx * ny) by (nonlinear_arith)
        requires
            k0 == ty0 * nx + tx0,
            tx0 < nx,
            ty0 < ny,
    ;
    lemma_fundamental_div_mod(px as int, ts as int);
    lemma_fundamental_div_mod(py as int, ts as int);
    lemma_along(width, ts, tx0);
    lemma_along(height, ts, ty0);
    assert(contains(tile_of(width, height, ts, k0), px, py));
    assert forall|k: nat|
        k < nx * ny && #[trigger] contains(tile_of(width, height, ts, k), px, py) implies k == k0 by {
        let tx = k % nx;
        let ty = k / nx;
        lemma_fundamental_div_mod(k as int, nx as int);
        assert(ty < ny) by (nonlinear_arith)
            requires
                k < nx * ny,
                k == nx * ty + tx,
                0 <= tx,
        ;
        lemma_along(width, ts, tx);
        lemma_along(height, ts, ty);
        let t = tile_of(width, height, ts, k);
        assert(tx * ts <= px < tx * ts + ts);
        assert(ty * ts <= py < ty * ts + ts);
        lemma_fundamental_div_mod_converse(px as int, ts as int, tx as int, (px - tx * ts) as int);
        lemma_fundamental_div_mod_converse(py as int, ts as int, ty as int, (py - ty * ts) as int);
        assert(tx == tx0 && ty == ty0);
        assert(k == k0) by (nonlinear_arith)
            requires
                k == nx * ty + tx,
                tx == tx0,
                ty == ty0,
                k0 == ty0 * nx + tx0,
        ;
    }
}

/// Position of pixel `(x, y)` in a row-major buffer of a `width` by
/// `height` frame, or `None` outside the frame.
pub fn pixel_index(width: u32, height: u32, x: i64, y: i64) -> (r: Option<usize>)
    requires
        width as int * height as int <= usize::MAX,
    ensures
        r == (if 0 <= x < width && 0 <= y < height {
            Some((y * width + x) as usize)
        } else {
            None::<usize>
        }),
{
    if 0 <= x && x < width as i64 && 0 <= y && y < height as i64 {
        proof {
            assert(y * width + x < width * height) by (nonlinear_arith)
                requires
                    0 <= x < width,
                    0 <= y < height,
            ;
        }
        Some((y as usize) * (width as usize) + (x as usize))
    } else {
        None
    }
}

} // verus!
