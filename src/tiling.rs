use vstd::prelude::*;
use vstd::arithmetic::div_mod::{lemma_fundamental_div_mod, lemma_fundamental_div_mod_converse};
use crate::tile::{covers, Tile};

verus! {

/// `a / b` rounded up.
pub open spec fn ceil_div_spec(a: int, b: int) -> int {
    (a + b - 1) / b
}

/// The extent of a tile that starts at `start` on an axis of length `full`,
/// with nominal size `t`: `t`, or what is left of the axis if that is less.
pub open spec fn clamp_extent(t: int, full: int, start: int) -> int {
    if t <= full - start {
        t
    } else {
        full - start
    }
}

/// Whether `(px, py)` is a pixel of a `w x h` image.
pub open spec fn in_image(w: int, h: int, px: int, py: int) -> bool {
    0 <= px < w && 0 <= py < h
}

/// Number of tiles that cover a `w x h` image with tiles of size `t`.
pub open spec fn tile_count(w: int, h: int, t: int) -> int {
    ceil_div_spec(w, t) * ceil_div_spec(h, t)
}

/// Left edge of the `k`-th tile in row-major order.
pub open spec fn tile_x(w: int, t: int, k: int) -> int {
    (k % ceil_div_spec(w, t)) * t
}

/// Top edge of the `k`-th tile in row-major order.
pub open spec fn tile_y(w: int, t: int, k: int) -> int {
    (k / ceil_div_spec(w, t)) * t
}

/// `tile` is the `k`-th tile, in row-major order, of a `w x h` image cut
/// into tiles of size `t`, clamped at the right and bottom edges.
pub open spec fn is_nth_tile(tile: Tile, w: int, h: int, t: int, k: int) -> bool {
    &&& tile.x == tile_x(w, t, k)
    &&& tile.y == tile_y(w, t, k)
    &&& tile.w == clamp_extent(t, w, tile_x(w, t, k))
    &&& tile.h == clamp_extent(t, h, tile_y(w, t, k))
}

/// `a / b` rounded up, without overflow for any `a`.
pub fn ceil_div(a: u32, b: u32) -> (r: u32)
    requires
        b > 0,
    ensures
        r as int == ceil_div_spec(a as int, b as int),
{
    let q = a / b;
    let rem = a % b;
    proof {
        lemma_fundamental_div_mod(a as int, b as int);
    }
    if rem == 0 {
        proof {
            lemma_fundamental_div_mod_converse(a + b - 1, b as int, q as int, b - 1);
        }
        q
    } else {
        proof {
            assert(b >= 2);
            assert(q * b <= a);
            assert(q * 2 <= q * b) by (nonlinear_arith)
                requires
                    b >= 2,
                    q >= 0,
            ;
            assert((q + 1) * b == q * b + b) by (nonlinear_arith);
            lemma_fundamental_div_mod_converse(a + b - 1, b as int, q + 1, rem - 1);
        }
        q + 1
    }
}


/// A tile index `i` starts inside an axis of length `w` exactly when it is
/// below the number of tiles along that axis.
proof fn lemma_start_inside(w: int, t: int, i: int)
    requires
        w >= 0,
        t > 0,
        i >= 0,
    ensures
        (i < ceil_div_spec(w, t)) == (i * t < w),
{
    let c = ceil_div_spec(w, t);
    lemma_fundamental_div_mod(w + t - 1, t);
    let r = (w + t - 1) % t;
    assert(w + t - 1 == t * c + r);
    assert(0 <= r < t);
    if i < c {
        assert(i * t <= (c - 1) * t) by (nonlinear_arith)
            requires
                i <= c - 1,
                t > 0,
        ;
        assert((c - 1) * t == t * c - t) by (nonlinear_arith);
    } else {
        assert(i * t >= c * t) by (nonlinear_arith)
            requires
                i >= c,
                t > 0,
        ;
        assert(c * t == t * c) by (nonlinear_arith);
    }
}

/// The number of tiles along an axis is never negative.
proof fn lemma_ceil_nonneg(w: int, t: int)
    requires
        w >= 0,
        t > 0,
    ensures
        ceil_div_spec(w, t) >= 0,
{
    lemma_start_inside(w, t, 0);
}

/// The pixel at `p` on an axis lies in the tile of index `p / t`.
proof fn lemma_quotient_of_span(p: int, t: int, c: int)
    requires
        t > 0,
        c * t <= p < c * t + t,
    ensures
        p / t == c,
{
    lemma_fundamental_div_mod_converse(p, t, c, p - c * t);
}

/// Row and column of the `k`-th tile, and its clamped rectangle.
proof fn lemma_nth_tile_geometry(w: int, h: int, t: int, k: int)
    requires
        w >= 0,
        h >= 0,
        t > 0,
        0 <= k < tile_count(w, h, t),
    ensures
        ceil_div_spec(w, t) > 0,
        0 <= k % ceil_div_spec(w, t) < ceil_div_spec(w, t),
        0 <= k / ceil_div_spec(w, t) < ceil_div_spec(h, t),
        k == (k / ceil_div_spec(w, t)) * ceil_div_spec(w, t) + k % ceil_div_spec(w, t),
        0 <= tile_x(w, t, k) < w,
        0 <= tile_y(w, t, k) < h,
        0 < clamp_extent(t, w, tile_x(w, t, k)) <= t,
        0 < clamp_extent(t, h, tile_y(w, t, k)) <= t,
{
    let nx = ceil_div_spec(w, t);
    let ny = ceil_div_spec(h, t);
    lemma_ceil_nonneg(w, t);
    lemma_ceil_nonneg(h, t);
    if nx == 0 {
        assert(nx * ny == 0) by (nonlinear_arith)
            requires
                nx == 0,
        ;
    }
    assert(nx > 0);
    lemma_fundamental_div_mod(k, nx);
    let col = k % nx;
    let row = k / nx;
    assert(k == row * nx + col) by (nonlinear_arith)
        requires
            k == nx * (k / nx) + k % nx,
            row == k / nx,
            col == k % nx,
    ;
    assert(row >= 0);
    if row >= ny {
        assert(row * nx >= ny * nx) by (nonlinear_arith)
            requires
                row >= ny,
                nx > 0,
        ;
        assert(ny * nx == nx * ny) by (nonlinear_arith);
    }
    lemma_start_inside(w, t, col);
    lemma_start_inside(h, t, row);
    assert(col * t >= 0) by (nonlinear_arith)
        requires
            col >= 0,
            t > 0,
    ;
    assert(row * t >= 0) by (nonlinear_arith)
        requires
            row >= 0,
            t > 0,
    ;
}

/// Cuts a `width x height` image into tiles of size `tile_size`, in
/// row-major order; tiles at the right and bottom edges are clamped to the
/// image. Every tile comes out without pixels.
pub fn enumerate_tiles(width: u32, height: u32, tile_size: u32) -> (r: Vec<Tile>)
    requires
        tile_size > 0,
    ensures
        r.len() == tile_count(width as int, height as int, tile_size as int),
        forall|k: int|
            0 <= k < r.len() ==> {
                &&& is_nth_tile(#[trigger] r[k], width as int, height as int, tile_size as int, k)
                &&& r[k].pixels is None
            },
{
    let nx = ceil_div(width, tile_size);
    let ny = ceil_div(height, tile_size);
    let ghost w = width as int;
    let ghost h = height as int;
    let ghost t = tile_size as int;
    let mut r: Vec<Tile> = Vec::new();
    let mut tj: u32 = 0;
    while tj < ny
        invariant
            nx == ceil_div_spec(w, t),
            ny == ceil_div_spec(h, t),
            w == width,
            h == height,
            t == tile_size,
            t > 0,
            0 <= tj <= ny,
            r.len() == tj * nx,
            forall|k: int|
                0 <= k < r.len() ==> {
                    &&& is_nth_tile(#[trigger] r[k], w, h, t, k)
                    &&& r[k].pixels is None
                },
        decreases ny - tj,
    {
        let mut ti: u32 = 0;
        proof {
            lemma_start_inside(h, t, tj as int);
        }
        let y = tj * tile_size;
        let th = if tile_size <= height - y {
            tile_size
        } else {
            height - y
        };
        while ti < nx
            invariant
                nx == ceil_div_spec(w, t),
                ny == ceil_div_spec(h, t),
                w == width,
                h == height,
                t == tile_size,
                t > 0,
                0 <= tj < ny,
                0 <= ti <= nx,
                y == tj * t,
                th == clamp_extent(t, h, y as int),
                r.len() == tj * nx + ti,
                forall|k: int|
                    0 <= k < r.len() ==> {
                        &&& is_nth_tile(#[trigger] r[k], w, h, t, k)
                        &&& r[k].pixels is None
                    },
            decreases nx - ti,
        {
            proof {
                lemma_start_inside(w, t, ti as int);
            }
            let x = ti * tile_size;
            let tw = if tile_size <= width - x {
                tile_size
            } else {
                width - x
            };
            proof {
                let k = tj * nx + ti;
                lemma_fundamental_div_mod_converse(k, nx as int, tj as int, ti as int);
            }
            r.push(Tile::new(x, y, tw, th));
            ti = ti + 1;
        }
        proof {
            assert(tj * nx + nx == (tj + 1) * nx) by (nonlinear_arith);
        }
        tj = tj + 1;
    }
    proof {
        assert(ny * nx == nx * ny) by (nonlinear_arith);
    }
    r
}

/// The tiles of `enumerate_tiles` partition the image: each lies inside it
/// and is non-empty, every pixel of `[0, w) x [0, h)` lies in some tile, and
/// no pixel lies in two of them.
pub proof fn lemma_tiles_partition_image(w: int, h: int, t: int, tiles: Seq<Tile>)
    requires
        w >= 0,
        h >= 0,
        t > 0,
        tiles.len() == tile_count(w, h, t),
        forall|k: int| 0 <= k < tiles.len() ==> is_nth_tile(#[trigger] tiles[k], w, h, t, k),
    ensures
        forall|k: int|
            0 <= k < tiles.len() ==> {
                &&& 0 < (#[trigger] tiles[k]).w
                &&& 0 < tiles[k].h
                &&& tiles[k].x + tiles[k].w <= w
                &&& tiles[k].y + tiles[k].h <= h
            },
        forall|px: int, py: int|
            #[trigger] in_image(w, h, px, py) ==> exists|k: int|
                0 <= k < tiles.len() && #[trigger] covers(tiles[k], px, py),
        forall|k1: int, k2: int, px: int, py: int|
            0 <= k1 < tiles.len() && 0 <= k2 < tiles.len() && #[trigger] covers(tiles[k1], px, py)
                && #[trigger] covers(tiles[k2], px, py) ==> k1 == k2,
{
    assert forall|k: int| 0 <= k < tiles.len() implies {
        &&& 0 < (#[trigger] tiles[k]).w
        &&& 0 < tiles[k].h
        &&& tiles[k].x + tiles[k].w <= w
        &&& tiles[k].y + tiles[k].h <= h
    } by {
        lemma_nth_tile_geometry(w, h, t, k);
    }
    let nx = ceil_div_spec(w, t);
    let ny = ceil_div_spec(h, t);
    assert forall|px: int, py: int| #[trigger] in_image(w, h, px, py) implies exists|k: int|
        0 <= k < tiles.len() && #[trigger] covers(tiles[k], px, py) by {
        let col = px / t;
        let row = py / t;
        lemma_fundamental_div_mod(px, t);
        lemma_fundamental_div_mod(py, t);
        assert(col >= 0 && row >= 0);
        assert(col * t <= px && row * t <= py) by (nonlinear_arith)
            requires
                px == t * col + px % t,
                py == t * row + py % t,
                px % t >= 0,
                py % t >= 0,
        ;
        lemma_start_inside(w, t, col);
        lemma_start_inside(h, t, row);
        let k = row * nx + col;
        assert(0 <= k < nx * ny) by (nonlinear_arith)
            requires
                k == row * nx + col,
                0 <= col < nx,
                0 <= row < ny,
        ;
        lemma_fundamental_div_mod_converse(k, nx, row, col);
        assert(covers(tiles[k], px, py));
    }
    assert forall|k1: int, k2: int, px: int, py: int|
        0 <= k1 < tiles.len() && 0 <= k2 < tiles.len() && #[trigger] covers(tiles[k1], px, py)
            && #[trigger] covers(tiles[k2], px, py) implies k1 == k2 by {
        lemma_nth_tile_geometry(w, h, t, k1);
        lemma_nth_tile_geometry(w, h, t, k2);
        lemma_quotient_of_span(px, t, k1 % nx);
        lemma_quotient_of_span(px, t, k2 % nx);
        lemma_quotient_of_span(py, t, k1 / nx);
        lemma_quotient_of_span(py, t, k2 / nx);
    }
}

/// No two tiles of `enumerate_tiles` share a top-left corner, so a record of
/// the corners of rendered tiles names each tile by itself.
pub proof fn lemma_tile_origins_distinct(w: int, h: int, t: int, tiles: Seq<Tile>)
    requires
        w >= 0,
        h >= 0,
        t > 0,
        tiles.len() == tile_count(w, h, t),
        forall|k: int| 0 <= k < tiles.len() ==> is_nth_tile(#[trigger] tiles[k], w, h, t, k),
    ensures
        forall|k1: int, k2: int|
            0 <= k1 < tiles.len() && 0 <= k2 < tiles.len() && (#[trigger] tiles[k1]).x == (
            #[trigger] tiles[k2]).x && tiles[k1].y == tiles[k2].y ==> k1 == k2,
{
    lemma_tiles_partition_image(w, h, t, tiles);
    assert forall|k1: int, k2: int|
        0 <= k1 < tiles.len() && 0 <= k2 < tiles.len() && (#[trigger] tiles[k1]).x == (
        #[trigger] tiles[k2]).x && tiles[k1].y == tiles[k2].y implies k1 == k2 by {
        assert(covers(tiles[k1], tiles[k1].x as int, tiles[k1].y as int));
        assert(covers(tiles[k2], tiles[k1].x as int, tiles[k1].y as int));
    }
}

} // verus!
