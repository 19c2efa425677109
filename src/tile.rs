use vstd::prelude::*;

verus! {

/// Where a tile stands in the pipeline.
#[derive(Clone, Copy, Debug, PartialEq, Eq, Structural)]
pub enum TileStatus {
    /// Enumerated, no pixels yet.
    Clear,
    /// Pixels rendered and owned by the tile.
    Finished,
}

/// A rectangular region of the image: its top-left corner `(x, y)`, its
/// size `w x h`, and, once rendered, its own row-major RGB bytes.
#[derive(Clone, Debug)]
pub struct Tile {
    pub x: u32,
    pub y: u32,
    pub w: u32,
    pub h: u32,
    pub pixels: Option<Vec<u8>>,
}

/// Whether the pixel `(px, py)` of the whole image lies inside the tile.
pub open spec fn covers(t: Tile, px: int, py: int) -> bool {
    &&& t.x <= px < t.x + t.w
    &&& t.y <= py < t.y + t.h
}

impl Tile {
    /// An empty tile of the given rectangle.
    pub fn new(x: u32, y: u32, w: u32, h: u32) -> (r: Tile)
        ensures
            r.x == x,
            r.y == y,
            r.w == w,
            r.h == h,
            r.pixels is None,
    {
        Tile { x, y, w, h, pixels: None }
    }

    /// `Finished` once the tile holds pixels, `Clear` before.
    pub fn status(&self) -> (r: TileStatus)
        ensures
            r == (if self.pixels is Some {
                TileStatus::Finished
            } else {
                TileStatus::Clear
            }),
    {
        match &self.pixels {
            Some(_) => TileStatus::Finished,
            None => TileStatus::Clear,
        }
    }
}

} // verus!
