use vstd::prelude::*;
use vstd::seq_lib::group_to_multiset_ensures;
use vstd::arithmetic::div_mod::{lemma_fundamental_div_mod, lemma_fundamental_div_mod_converse};
use crate::tile::{covers, Tile};

verus! {

/// What a framebuffer holds: its size in pixels and its row-major RGB bytes.
pub struct FramebufferView {
    pub width: nat,
    pub height: nat,
    pub bytes: Seq<u8>,
}

/// The full image: `width x height` pixels, row-major, three bytes per
/// pixel, top-left origin. Only the compositor writes it.
pub struct Framebuffer {
    width: u32,
    height: u32,
    bytes: Vec<u8>,
}

impl View for Framebuffer {
    type V = FramebufferView;

    closed spec fn view(&self) -> FramebufferView {
        FramebufferView { width: self.width as nat, height: self.height as nat, bytes: self.bytes@ }
    }
}

/// The image pixel that byte `k` of a framebuffer of width `fw` belongs to:
/// its column.
pub open spec fn byte_px(fw: int, k: int) -> int {
    (k / 3) % fw
}

/// The row of the image pixel that byte `k` belongs to.
pub open spec fn byte_py(fw: int, k: int) -> int {
    (k / 3) / fw
}

/// The tile holds a full pixel buffer and lies inside a `fw x fh` image.
pub open spec fn fits(t: Tile, fw: int, fh: int) -> bool {
    &&& t.pixels is Some
    &&& t.pixels.unwrap()@.len() == t.w * t.h * 3
    &&& t.x + t.w <= fw
    &&& t.y + t.h <= fh
}

/// Channel `c` of the image pixel `(px, py)` as the tile's buffer stores it.
pub open spec fn tile_byte(t: Tile, px: int, py: int, c: int) -> u8 {
    t.pixels.unwrap()@[3 * ((py - t.y) * t.w + (px - t.x)) + c]
}

/// Byte `k` of the framebuffer `fb` once the tile has been copied in.
pub open spec fn composited_byte(fb: Seq<u8>, fw: int, t: Tile, k: int) -> u8 {
    if covers(t, byte_px(fw, k), byte_py(fw, k)) {
        tile_byte(t, byte_px(fw, k), byte_py(fw, k), k % 3)
    } else {
        fb[k]
    }
}

/// The bytes of a `fw x fh` framebuffer after the tile is merged into it:
/// the tile's rectangle takes the tile's pixels, everything else is kept.
/// A tile without pixels, or one that does not fit, changes nothing.
pub open spec fn composite_spec(fb: Seq<u8>, fw: int, fh: int, t: Tile) -> Seq<u8> {
    if fits(t, fw, fh) {
        Seq::new(fb.len(), |k: int| composited_byte(fb, fw, t, k))
    } else {
        fb
    }
}

/// The bytes after merging the tiles one by one, in sequence order.
pub open spec fn composite_all_spec(fb: Seq<u8>, fw: int, fh: int, tiles: Seq<Tile>) -> Seq<u8>
    decreases tiles.len(),
{
    if tiles.len() == 0 {
        fb
    } else {
        composite_spec(composite_all_spec(fb, fw, fh, tiles.drop_last()), fw, fh, tiles.last())
    }
}

/// The tile fits the framebuffer and its rectangle holds the pixel of byte `k`.
pub open spec fn owns_byte(t: Tile, fw: int, fh: int, k: int) -> bool {
    fits(t, fw, fh) && covers(t, byte_px(fw, k), byte_py(fw, k))
}

/// No pixel lies in the rectangles of two tiles, at distinct positions of
/// the sequence, that both fit a `fw x fh` framebuffer.
pub open spec fn disjoint_tiles(tiles: Seq<Tile>, fw: int, fh: int) -> bool {
    forall|a: int, b: int, px: int, py: int|
        0 <= a < tiles.len() && 0 <= b < tiles.len() && a != b && fits(tiles[a], fw, fh) && fits(
            tiles[b],
            fw,
            fh,
        ) ==> !(#[trigger] covers(tiles[a], px, py) && #[trigger] covers(tiles[b], px, py))
}

/// Merging the same tile a second time changes nothing.
pub proof fn lemma_composite_idempotent(fb: Seq<u8>, fw: int, fh: int, t: Tile)
    ensures
        composite_spec(composite_spec(fb, fw, fh, t), fw, fh, t) == composite_spec(fb, fw, fh, t),
{
    assert(composite_spec(composite_spec(fb, fw, fh, t), fw, fh, t) =~= composite_spec(
        fb,
        fw,
        fh,
        t,
    ));
}

/// After merging pairwise disjoint tiles, a byte owned by one of them holds
/// that tile's value, and a byte that none owns keeps its first value.
pub(crate) proof fn lemma_composite_all_pointwise(fb: Seq<u8>, fw: int, fh: int, tiles: Seq<Tile>)
    requires
        disjoint_tiles(tiles, fw, fh),
    ensures
        composite_all_spec(fb, fw, fh, tiles).len() == fb.len(),
        forall|k: int, a: int|
            0 <= k < fb.len() && 0 <= a < tiles.len() && #[trigger] owns_byte(tiles[a], fw, fh, k)
                ==> composite_all_spec(fb, fw, fh, tiles)[k] == tile_byte(
                tiles[a],
                byte_px(fw, k),
                byte_py(fw, k),
                k % 3,
            ),
        forall|k: int|
            0 <= k < fb.len() && !(exists|a: int|
                0 <= a < tiles.len() && #[trigger] owns_byte(tiles[a], fw, fh, k)) ==> #[trigger] composite_all_spec(
                fb,
                fw,
                fh,
                tiles,
            )[k] == fb[k],
    decreases tiles.len(),
{
    if tiles.len() > 0 {
        let prev = tiles.drop_last();
        let last = tiles.last();
        let n = tiles.len() - 1;
        assert forall|a: int, b: int, px: int, py: int|
            0 <= a < prev.len() && 0 <= b < prev.len() && a != b && fits(prev[a], fw, fh) && fits(
                prev[b],
                fw,
                fh,
            ) implies !(#[trigger] covers(prev[a], px, py) && #[trigger] covers(prev[b], px, py)) by {
            assert(prev[a] == tiles[a] && prev[b] == tiles[b]);
        }
        lemma_composite_all_pointwise(fb, fw, fh, prev);
        let p = composite_all_spec(fb, fw, fh, prev);
        let r = composite_all_spec(fb, fw, fh, tiles);
        assert(r == composite_spec(p, fw, fh, last));
        assert forall|k: int, a: int|
            0 <= k < fb.len() && 0 <= a < tiles.len() && #[trigger] owns_byte(
                tiles[a],
                fw,
                fh,
                k,
            ) implies r[k] == tile_byte(tiles[a], byte_px(fw, k), byte_py(fw, k), k % 3) by {
            if a != n {
                assert(prev[a] == tiles[a]);
                assert(owns_byte(prev[a], fw, fh, k));
                assert(!owns_byte(last, fw, fh, k));
            }
        }
        assert forall|k: int|
            0 <= k < fb.len() && !(exists|a: int|
                0 <= a < tiles.len() && #[trigger] owns_byte(tiles[a], fw, fh, k)) implies #[trigger] r[k]
            == fb[k] by {
            assert(!owns_byte(tiles[n], fw, fh, k));
            assert forall|a: int| 0 <= a < prev.len() implies !#[trigger] owns_byte(
                prev[a],
                fw,
                fh,
                k,
            ) by {
                assert(prev[a] == tiles[a]);
                assert(!owns_byte(tiles[a], fw, fh, k));
            }
        }
    }
}

/// Merging the same finished tiles in two arrival orders gives the same
/// bytes, when no two of them overlap.
pub proof fn lemma_composite_order_independent(
    fb: Seq<u8>,
    fw: int,
    fh: int,
    s1: Seq<Tile>,
    s2: Seq<Tile>,
)
    requires
        s1.to_multiset() == s2.to_multiset(),
        disjoint_tiles(s1, fw, fh),
        disjoint_tiles(s2, fw, fh),
    ensures
        composite_all_spec(fb, fw, fh, s1) == composite_all_spec(fb, fw, fh, s2),
{
    broadcast use group_to_multiset_ensures;

    lemma_composite_all_pointwise(fb, fw, fh, s1);
    lemma_composite_all_pointwise(fb, fw, fh, s2);
    let r1 = composite_all_spec(fb, fw, fh, s1);
    let r2 = composite_all_spec(fb, fw, fh, s2);
    assert forall|k: int| 0 <= k < fb.len() implies r1[k] == r2[k] by {
        if exists|a: int| 0 <= a < s1.len() && #[trigger] owns_byte(s1[a], fw, fh, k) {
            let a = choose|a: int| 0 <= a < s1.len() && #[trigger] owns_byte(s1[a], fw, fh, k);
            assert(s1.contains(s1[a]));
            assert(s1.to_multiset().count(s1[a]) > 0);
            assert(s2.contains(s1[a]));
            let b = choose|b: int| 0 <= b < s2.len() && s2[b] == s1[a];
            assert(owns_byte(s2[b], fw, fh, k));
        } else if exists|b: int| 0 <= b < s2.len() && #[trigger] owns_byte(s2[b], fw, fh, k) {
            let b = choose|b: int| 0 <= b < s2.len() && #[trigger] owns_byte(s2[b], fw, fh, k);
            assert(s2.contains(s2[b]));
            assert(s2.to_multiset().count(s2[b]) > 0);
            assert(s1.contains(s2[b]));
            let a = choose|a: int| 0 <= a < s1.len() && s1[a] == s2[b];
            assert(owns_byte(s1[a], fw, fh, k));
        }
    }
    assert(r1 =~= r2);
}

/// Byte `k` lies in the part of the tile's rectangle already copied when the
/// copy stands at column `i` of row `j` of the tile.
spec fn copied_before(t: Tile, fw: int, k: int, j: int, i: int) -> bool {
    &&& covers(t, byte_px(fw, k), byte_py(fw, k))
    &&& (byte_py(fw, k) - t.y < j || (byte_py(fw, k) - t.y == j && byte_px(fw, k) - t.x < i))
}

/// Byte `3 * (py * fw + px) + c` belongs to the pixel `(px, py)`.
proof fn lemma_byte_of_pixel(fw: int, px: int, py: int, c: int)
    requires
        0 <= px < fw,
        0 <= py,
        0 <= c < 3,
    ensures
        (3 * (py * fw + px) + c) / 3 == py * fw + px,
        (3 * (py * fw + px) + c) % 3 == c,
        byte_px(fw, 3 * (py * fw + px) + c) == px,
        byte_py(fw, 3 * (py * fw + px) + c) == py,
{
    lemma_fundamental_div_mod_converse(3 * (py * fw + px) + c, 3, py * fw + px, c);
    lemma_fundamental_div_mod_converse(py * fw + px, fw, py, px);
}

/// A byte whose pixel is `(px, py)` lies within three bytes of
/// `3 * (py * fw + px)`.
pub(crate) proof fn lemma_pixel_of_byte(fw: int, k: int)
    requires
        fw > 0,
        k >= 0,
    ensures
        k == 3 * (byte_py(fw, k) * fw + byte_px(fw, k)) + k % 3,
        0 <= k % 3 < 3,
        0 <= byte_px(fw, k) < fw,
        0 <= byte_py(fw, k),
{
    lemma_fundamental_div_mod(k, 3);
    lemma_fundamental_div_mod(k / 3, fw);
    assert(fw * ((k / 3) / fw) == ((k / 3) / fw) * fw) by (nonlinear_arith);
    assert(k / 3 >= 0);
    assert((k / 3) / fw >= 0) by (nonlinear_arith)
        requires
            k / 3 >= 0,
            fw > 0,
    ;
}

impl Framebuffer {
    /// The sizes agree with the byte buffer.
    pub open spec fn wf(&self) -> bool {
        self@.bytes.len() == self@.width * self@.height * 3
    }

    /// A zeroed framebuffer of `width x height` pixels.
    pub fn new(width: u32, height: u32) -> (r: Framebuffer)
        requires
            width * height * 3 <= usize::MAX,
        ensures
            r.wf(),
            r@.width == width,
            r@.height == height,
            r@.bytes == Seq::new((width * height * 3) as nat, |k: int| 0u8),
    {
        let n: usize = (width as usize) * (height as usize) * 3;
        let mut bytes: Vec<u8> = Vec::new();
        let mut k: usize = 0;
        while k < n
            invariant
                0 <= k <= n,
                bytes@ == Seq::new(k as nat, |i: int| 0u8),
            decreases n - k,
        {
            bytes.push(0u8);
            k = k + 1;
            proof {
                assert(bytes@ =~= Seq::new(k as nat, |i: int| 0u8));
            }
        }
        Framebuffer { width, height, bytes }
    }

    /// Merges one finished tile: copies its pixels, row by row, into the
    /// framebuffer at `(tile.x, tile.y)`. Returns whether it was merged; a
    /// tile without pixels, with a buffer of the wrong size, or reaching
    /// past the framebuffer is left out and changes nothing.
    pub fn composite_tile(&mut self, tile: &Tile) -> (r: bool)
        requires
            old(self).wf(),
        ensures
            final(self).wf(),
            final(self)@.width == old(self)@.width,
            final(self)@.height == old(self)@.height,
            r == fits(*tile, old(self)@.width as int, old(self)@.height as int),
            final(self)@.bytes == composite_spec(
                old(self)@.bytes,
                old(self)@.width as int,
                old(self)@.height as int,
                *tile,
            ),
    {
        let ghost fw = self.width as int;
        let ghost fh = self.height as int;
        let ghost old_bytes = self.bytes@;
        let n: usize = self.bytes.len();
        let tile_buf = match &tile.pixels {
            Some(b) => b,
            None => {
                return false;
            },
        };
        if tile.x as u64 + tile.w as u64 > self.width as u64 || tile.y as u64 + tile.h as u64
            > self.height as u64 {
            return false;
        }
        proof {
            assert(tile.w * tile.h * 3 <= fw * fh * 3) by (nonlinear_arith)
                requires
                    0 <= tile.w <= fw,
                    0 <= tile.h <= fh,
            ;
            assert(fw * fh * 3 == n);
        }
        let tw = tile.w as usize;
        let th = tile.h as usize;
        if tile_buf.len() != tw * th * 3 {
            return false;
        }
        let tn: usize = tile_buf.len();
        let stride = self.width as usize;
        let mut j: usize = 0;
        while j < th
            invariant
                self.width == fw,
                self.height == fh,
                stride == fw,
                tw == tile.w,
                th == tile.h,
                tile.pixels == Some(*tile_buf),
                fits(*tile, fw, fh),
                0 <= j <= th,
                self.bytes@.len() == old_bytes.len(),
                old_bytes.len() == fw * fh * 3,
                n == old_bytes.len(),
                tile_buf@.len() == tw * th * 3,
                tn == tile_buf@.len(),
                forall|k: int|
                    0 <= k < old_bytes.len() ==> #[trigger] self.bytes@[k] == if copied_before(
                        *tile,
                        fw,
                        k,
                        j as int,
                        0,
                    ) {
                        tile_byte(*tile, byte_px(fw, k), byte_py(fw, k), k % 3)
                    } else {
                        old_bytes[k]
                    },
            decreases th - j,
        {
            let mut i: usize = 0;
            while i < tw
                invariant
                    self.width == fw,
                    self.height == fh,
                    stride == fw,
                    tw == tile.w,
                    th == tile.h,
                    tile.pixels == Some(*tile_buf),
                    fits(*tile, fw, fh),
                    0 <= j < th,
                    0 <= i <= tw,
                    self.bytes@.len() == old_bytes.len(),
                    old_bytes.len() == fw * fh * 3,
                    n == old_bytes.len(),
                    tile_buf@.len() == tw * th * 3,
                tn == tile_buf@.len(),
                tile_buf@.len() == tw * th * 3,
                tn == tile_buf@.len(),
                n == old_bytes.len(),
                tile_buf@.len() == tw * th * 3,
                tn == tile_buf@.len(),
                    forall|k: int|
                        0 <= k < old_bytes.len() ==> #[trigger] self.bytes@[k] == if copied_before(
                            *tile,
                            fw,
                            k,
                            j as int,
                            i as int,
                        ) {
                            tile_byte(*tile, byte_px(fw, k), byte_py(fw, k), k % 3)
                        } else {
                            old_bytes[k]
                        },
                decreases tw - i,
            {
                let ghost px = tile.x + i;
                let ghost py = tile.y + j;
                proof {
                    assert(py * fw + px < fw * fh) by (nonlinear_arith)
                        requires
                            0 <= px < fw,
                            0 <= py < fh,
                    ;
                    assert(0 <= j * tw && j * tw + i < tw * th) by (nonlinear_arith)
                        requires
                            0 <= i < tw,
                            0 <= j < th,
                    ;
                    assert(py * fw >= 0) by (nonlinear_arith)
                        requires
                            py >= 0,
                            fw >= 0,
                    ;
                }
                let ndx: usize = ((tile.y as usize + j) * stride + (tile.x as usize + i)) * 3;
                let tile_ndx: usize = (j * tw + i) * 3;
                let ghost before = self.bytes@;
                self.bytes.set(ndx, tile_buf[tile_ndx]);
                self.bytes.set(ndx + 1, tile_buf[tile_ndx + 1]);
                self.bytes.set(ndx + 2, tile_buf[tile_ndx + 2]);
                proof {
                    lemma_byte_of_pixel(fw, px, py, 0);
                    lemma_byte_of_pixel(fw, px, py, 1);
                    lemma_byte_of_pixel(fw, px, py, 2);
                    assert(py - tile.y == j && px - tile.x == i);
                    assert forall|k: int| 0 <= k < old_bytes.len() implies #[trigger] self.bytes@[k]
                        == if copied_before(*tile, fw, k, j as int, i + 1) {
                        tile_byte(*tile, byte_px(fw, k), byte_py(fw, k), k % 3)
                    } else {
                        old_bytes[k]
                    } by {
                        lemma_pixel_of_byte(fw, k);
                        if ndx <= k < ndx + 3 {
                            lemma_byte_of_pixel(fw, px, py, k - ndx);
                        } else {
                            assert(self.bytes@[k] == before[k]);
                            if byte_px(fw, k) == px && byte_py(fw, k) == py {
                                assert(k == ndx + k % 3);
                            }
                        }
                    }
                }
                i = i + 1;
            }
            j = j + 1;
        }
        proof {
            if fw == 0 {
                assert(fw * fh * 3 == 0) by (nonlinear_arith)
                    requires
                        fw == 0,
                ;
            }
            assert forall|k: int| 0 <= k < old_bytes.len() implies #[trigger] self.bytes@[k]
                == composited_byte(old_bytes, fw, *tile, k) by {
                lemma_pixel_of_byte(fw, k);
            }
            assert(self.bytes@ =~= composite_spec(old_bytes, fw, fh, *tile));
        }
        true
    }

    /// Merges the finished tiles that are at hand, in the order given; the
    /// tiles are consumed.
    pub fn composite_tiles(&mut self, tiles: Vec<Tile>)
        requires
            old(self).wf(),
        ensures
            final(self).wf(),
            final(self)@.width == old(self)@.width,
            final(self)@.height == old(self)@.height,
            final(self)@.bytes == composite_all_spec(
                old(self)@.bytes,
                old(self)@.width as int,
                old(self)@.height as int,
                tiles@,
            ),
    {
        let ghost fw = self@.width as int;
        let ghost fh = self@.height as int;
        let ghost start = self@.bytes;
        let mut k: usize = 0;
        while k < tiles.len()
            invariant
                self.wf(),
                self@.width == fw,
                self@.height == fh,
                0 <= k <= tiles@.len(),
                self@.bytes == composite_all_spec(start, fw, fh, tiles@.subrange(0, k as int)),
            decreases tiles@.len() - k,
        {
            self.composite_tile(&tiles[k]);
            proof {
                assert(tiles@.subrange(0, k + 1).drop_last() =~= tiles@.subrange(0, k as int));
            }
            k = k + 1;
        }
        proof {
            assert(tiles@.subrange(0, k as int) =~= tiles@);
        }
    }

    /// Width in pixels.
    pub fn width(&self) -> (r: u32)
        ensures
            r == self@.width,
    {
        self.width
    }

    /// Height in pixels.
    pub fn height(&self) -> (r: u32)
        ensures
            r == self@.height,
    {
        self.height
    }

    /// A copy of the current bytes, for presentation.
    pub fn snapshot(&self) -> (r: Vec<u8>)
        ensures
            r@ == self@.bytes,
    {
        let mut r: Vec<u8> = Vec::new();
        let mut k: usize = 0;
        while k < self.bytes.len()
            invariant
                0 <= k <= self.bytes@.len(),
                r@ == self.bytes@.subrange(0, k as int),
            decreases self.bytes@.len() - k,
        {
            r.push(self.bytes[k]);
            k = k + 1;
            proof {
                assert(r@ =~= self.bytes@.subrange(0, k as int));
            }
        }
        proof {
            assert(r@ =~= self.bytes@);
        }
        r
    }
}

} // verus!
