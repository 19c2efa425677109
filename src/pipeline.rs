use vstd::prelude::*;
use crate::compositor::{
    byte_px,
    byte_py,
    composite_all_spec,
    disjoint_tiles,
    fits,
    lemma_composite_all_pointwise,
    lemma_pixel_of_byte,
    owns_byte,
    tile_byte,
};
use crate::render::{block_matches, lemma_block_position, rgb_at};
use crate::tile::covers;
use crate::tile::Tile;
use crate::tiling::{in_image, is_nth_tile, lemma_tiles_partition_image, tile_count};

verus! {

/// Rendering every tile of the tile source and merging them all, in
/// whatever order, gives the image that a direct per-pixel render gives,
/// byte for byte, when the shader returns one colour per pixel.
pub proof fn lemma_tiled_render_matches_direct(
    w: int,
    h: int,
    t: int,
    tiles: Seq<Tile>,
    fb: Seq<u8>,
    image: Seq<u8>,
    rel: spec_fn(int, int, (u8, u8, u8)) -> bool,
)
    requires
        w >= 0,
        h >= 0,
        t > 0,
        tiles.len() == tile_count(w, h, t),
        forall|k: int|
            0 <= k < tiles.len() ==> {
                &&& is_nth_tile(#[trigger] tiles[k], w, h, t, k)
                &&& tiles[k].pixels is Some
                &&& block_matches(
                    tiles[k].pixels.unwrap()@,
                    tiles[k].x as int,
                    tiles[k].y as int,
                    tiles[k].w as int,
                    tiles[k].h as int,
                    rel,
                )
            },
        fb.len() == w * h * 3,
        block_matches(image, 0, 0, w, h, rel),
        forall|x: int, y: int, c1: (u8, u8, u8), c2: (u8, u8, u8)|
            #[trigger] rel(x, y, c1) && #[trigger] rel(x, y, c2) ==> c1 == c2,
    ensures
        composite_all_spec(fb, w, h, tiles) == image,
{
    lemma_tiles_partition_image(w, h, t, tiles);
    assert forall|a: int| 0 <= a < tiles.len() implies fits(#[trigger] tiles[a], w, h) by {
        assert(is_nth_tile(tiles[a], w, h, t, a));
    }
    assert forall|a: int, b: int, px: int, py: int|
        0 <= a < tiles.len() && 0 <= b < tiles.len() && a != b && fits(tiles[a], w, h) && fits(
            tiles[b],
            w,
            h,
        ) implies !(#[trigger] covers(tiles[a], px, py) && #[trigger] covers(tiles[b], px, py)) by {
    }
    assert(disjoint_tiles(tiles, w, h));
    lemma_composite_all_pointwise(fb, w, h, tiles);
    let r = composite_all_spec(fb, w, h, tiles);
    assert forall|k: int| 0 <= k < fb.len() implies r[k] == image[k] by {
        if w == 0 {
            assert(w * h * 3 == 0) by (nonlinear_arith)
                requires
                    w == 0,
            ;
        }
        lemma_pixel_of_byte(w, k);
        let px = byte_px(w, k);
        let py = byte_py(w, k);
        let c = k % 3;
        let p = py * w + px;
        if py >= h {
            assert(p >= w * h) by (nonlinear_arith)
                requires
                    py >= h,
                    p == py * w + px,
                    px >= 0,
                    w > 0,
            ;
        }
        assert(in_image(w, h, px, py));
        let a = choose|a: int| 0 <= a < tiles.len() && #[trigger] covers(tiles[a], px, py);
        let ta = tiles[a];
        assert(owns_byte(ta, w, h, k));
        assert(r[k] == tile_byte(ta, px, py, c));
        let buf = ta.pixels.unwrap()@;
        let i = px - ta.x;
        let j = py - ta.y;
        let q = j * ta.w + i;
        assert(0 <= q < ta.w * ta.h) by (nonlinear_arith)
            requires
                0 <= i < ta.w,
                0 <= j < ta.h,
                q == j * ta.w + i,
        ;
        lemma_block_position(ta.w as int, i, j);
        assert(rel(ta.x + q % (ta.w as int), ta.y + q / (ta.w as int), rgb_at(buf, q)));
        assert(rel(px, py, rgb_at(buf, q)));
        assert(0 <= p < w * h) by (nonlinear_arith)
            requires
                0 <= px < w,
                0 <= py < h,
                p == py * w + px,
        ;
        lemma_block_position(w, px, py);
        assert(rel(0 + p % w, 0 + p / w, rgb_at(image, p)));
        assert(rgb_at(buf, q) == rgb_at(image, p));
        assert(k == 3 * p + c);
    }
    assert(r =~= image);
}

} // verus!
