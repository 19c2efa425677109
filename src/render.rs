use vstd::prelude::*;
use vstd::arithmetic::div_mod::lemma_fundamental_div_mod_converse;
use crate::tile::Tile;

verus! {

/// The RGB triplet of pixel `p` in a row-major buffer of 3-byte pixels.
pub open spec fn rgb_at(buf: Seq<u8>, p: int) -> (u8, u8, u8) {
    (buf[3 * p], buf[3 * p + 1], buf[3 * p + 2])
}

/// `buf` is a row-major `w x h` block of RGB pixels whose top-left pixel is
/// the image pixel `(ox, oy)`, and `rel` holds of every image coordinate in
/// the block and the triplet stored for it.
pub open spec fn block_matches(
    buf: Seq<u8>,
    ox: int,
    oy: int,
    w: int,
    h: int,
    rel: spec_fn(int, int, (u8, u8, u8)) -> bool,
) -> bool {
    &&& buf.len() == w * h * 3
    &&& forall|p: int| 0 <= p < w * h ==> rel(ox + p % w, oy + p / w, #[trigger] rgb_at(buf, p))
}

/// The relation between an image coordinate and the colours that `shade`
/// may return for it.
pub open spec fn shaded_by<F: Fn(u32, u32) -> (u8, u8, u8)>(shade: F) -> spec_fn(
    int,
    int,
    (u8, u8, u8),
) -> bool {
    |x: int, y: int, c: (u8, u8, u8)| shade.ensures((x as u32, y as u32), c)
}

/// Pixel `j * w + i` of a block of width `w` is column `i` of row `j`.
pub(crate) proof fn lemma_block_position(w: int, i: int, j: int)
    requires
        0 <= i < w,
        0 <= j,
    ensures
        (j * w + i) % w == i,
        (j * w + i) / w == j,
{
    lemma_fundamental_div_mod_converse(j * w + i, w, j, i);
}

/// Renders a tile: asks `shade` for the colour of each of its pixels, at
/// the pixel's coordinates in the whole image, and stores the triplets in a
/// row-major buffer that the tile then owns. The rectangle is kept.
pub fn render_tile<F: Fn(u32, u32) -> (u8, u8, u8)>(tile: &mut Tile, shade: F)
    requires
        old(tile).x + old(tile).w <= u32::MAX,
        old(tile).y + old(tile).h <= u32::MAX,
        old(tile).w * old(tile).h * 3 <= usize::MAX,
        forall|px: u32, py: u32| shade.requires((px, py)),
    ensures
        final(tile).x == old(tile).x,
        final(tile).y == old(tile).y,
        final(tile).w == old(tile).w,
        final(tile).h == old(tile).h,
        final(tile).pixels is Some,
        block_matches(
            final(tile).pixels.unwrap()@,
            old(tile).x as int,
            old(tile).y as int,
            old(tile).w as int,
            old(tile).h as int,
            shaded_by(shade),
        ),
{
    let x = tile.x;
    let y = tile.y;
    let w = tile.w;
    let h = tile.h;
    let ghost rel = shaded_by(shade);
    let mut buf: Vec<u8> = Vec::new();
    let mut j: u32 = 0;
    while j < h
        invariant
            0 <= j <= h,
            w * h * 3 <= usize::MAX,
            x + w <= u32::MAX,
            y + h <= u32::MAX,
            rel == shaded_by(shade),
            forall|px: u32, py: u32| shade.requires((px, py)),
            buf@.len() == (j * w) * 3,
            forall|p: int| 0 <= p < j * w ==> rel(x + p % (w as int), y + p / (w as int), #[trigger] rgb_at(buf@, p)),
        decreases h - j,
    {
        let mut i: u32 = 0;
        while i < w
            invariant
                0 <= j < h,
                0 <= i <= w,
                x + w <= u32::MAX,
                y + h <= u32::MAX,
                rel == shaded_by(shade),
                forall|px: u32, py: u32| shade.requires((px, py)),
                buf@.len() == (j * w + i) * 3,
                forall|p: int| 0 <= p < j * w + i ==> rel(x + p % (w as int), y + p / (w as int), #[trigger] rgb_at(buf@, p)),
            decreases w - i,
        {
            let c = shade(x + i, y + j);
            let ghost before = buf@;
            buf.push(c.0);
            buf.push(c.1);
            buf.push(c.2);
            proof {
                let q = j * w + i;
                lemma_block_position(w as int, i as int, j as int);
                assert(rgb_at(buf@, q) == c);
                assert forall|p: int| 0 <= p < j * w + i + 1 implies rel(x + p % (w as int), y + p / (w as int), #[trigger] rgb_at(buf@, p)) by {
                    if p < q {
                        assert(rgb_at(buf@, p) == rgb_at(before, p));
                    }
                }
                assert((j * w + i + 1) * 3 == (j * w + i) * 3 + 3);
            }
            i = i + 1;
        }
        proof {
            assert(j * w + w == (j + 1) * w) by (nonlinear_arith);
        }
        j = j + 1;
    }
    proof {
        assert(j * w == w * h) by (nonlinear_arith)
            requires
                j == h,
        ;
    }
    tile.pixels = Some(buf);
}


/// Renders a whole `width x height` image in one pass, without tiles: the
/// triplet for each pixel `(i, j)` is what `shade` returns for it, stored at
/// the row-major offset `(j * width + i) * 3`.
pub fn do_render<F: Fn(u32, u32) -> (u8, u8, u8)>(width: u32, height: u32, buffer: &mut [u8], shade: F)
    requires
        old(buffer)@.len() == width * height * 3,
        forall|px: u32, py: u32| shade.requires((px, py)),
    ensures
        block_matches(final(buffer)@, 0, 0, width as int, height as int, shaded_by(shade)),
{
    let ghost rel = shaded_by(shade);
    let ghost w = width as int;
    let n: usize = buffer.len();
    let mut j: u32 = 0;
    while j < height
        invariant
            0 <= j <= height,
            w == width,
            n == buffer@.len(),
            buffer@.len() == width * height * 3,
            rel == shaded_by(shade),
            forall|px: u32, py: u32| shade.requires((px, py)),
            forall|p: int| 0 <= p < j * w ==> rel(p % w, p / w, #[trigger] rgb_at(buffer@, p)),
        decreases height - j,
    {
        let mut i: u32 = 0;
        while i < width
            invariant
                0 <= j < height,
                0 <= i <= width,
                w == width,
                n == buffer@.len(),
                buffer@.len() == width * height * 3,
                rel == shaded_by(shade),
                forall|px: u32, py: u32| shade.requires((px, py)),
                forall|p: int| 0 <= p < j * w + i ==> rel(p % w, p / w, #[trigger] rgb_at(buffer@, p)),
            decreases width - i,
        {
            proof {
                assert(0 <= j * w && j * w + i < w * height) by (nonlinear_arith)
                    requires
                        0 <= j < height,
                        0 <= i < w,
                ;
                assert(w * height * 3 == n);
            }
            let ndx: usize = ((j as usize) * (width as usize) + (i as usize)) * 3;
            let c = shade(i, j);
            let ghost before = buffer@;
            buffer[ndx] = c.0;
            buffer[ndx + 1] = c.1;
            buffer[ndx + 2] = c.2;
            proof {
                let q = j * w + i;
                lemma_block_position(w, i as int, j as int);
                assert(rgb_at(buffer@, q) == c);
                assert forall|p: int| 0 <= p < j * w + i + 1 implies rel(p % w, p / w, #[trigger] rgb_at(buffer@, p)) by {
                    if p < q {
                        assert(rgb_at(buffer@, p) == rgb_at(before, p));
                    }
                }
            }
            i = i + 1;
        }
        proof {
            assert(j * w + w == (j + 1) * w) by (nonlinear_arith);
        }
        j = j + 1;
    }
    proof {
        assert(j * w == w * height) by (nonlinear_arith)
            requires
                j == height,
        ;
        assert forall|p: int| 0 <= p < w * height implies rel(0 + p % w, 0 + p / w, #[trigger] rgb_at(buffer@, p)) by {
        }
    }
}

} // verus!
