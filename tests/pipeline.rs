use tile_render::compositor::Framebuffer;
use tile_render::config::{ConfigError, RenderConfig};
use tile_render::queue::WorkQueue;
use tile_render::render::{do_render, render_tile};
use tile_render::tile::{Tile, TileStatus};
use tile_render::tiling::{ceil_div, enumerate_tiles};

fn shade(x: u32, y: u32) -> (u8, u8, u8) {
    ((x % 256) as u8, (y % 256) as u8, ((x * 7 + y * 13) % 256) as u8)
}

fn render_all(tiles: &mut Vec<Tile>) {
    for t in tiles.iter_mut() {
        render_tile(t, shade);
    }
}

fn coverage_counts(w: u32, h: u32, t: u32) -> Vec<u32> {
    let tiles = enumerate_tiles(w, h, t);
    let mut grid = vec![0u32; (w * h) as usize];
    for tile in &tiles {
        assert!(tile.x + tile.w <= w && tile.y + tile.h <= h);
        for j in 0..tile.h {
            for i in 0..tile.w {
                grid[((tile.y + j) * w + tile.x + i) as usize] += 1;
            }
        }
    }
    grid
}

#[test]
fn ceil_div_rounds_up() {
    assert_eq!(ceil_div(100, 32), 4);
    assert_eq!(ceil_div(64, 32), 2);
    assert_eq!(ceil_div(70, 32), 3);
    assert_eq!(ceil_div(1, 32), 1);
    assert_eq!(ceil_div(0, 5), 0);
    assert_eq!(ceil_div(u32::MAX, 1), u32::MAX);
    assert_eq!(ceil_div(u32::MAX, 2), 1u32 << 31);
}

#[test]
fn coverage_each_pixel_once() {
    for &(w, h, t) in &[(1, 1, 1), (1, 1, 32), (64, 64, 32), (100, 70, 32), (33, 17, 8), (7, 50, 3)] {
        let grid = coverage_counts(w, h, t);
        assert!(grid.iter().all(|&c| c == 1), "{}x{} tile {}", w, h, t);
        assert_eq!(enumerate_tiles(w, h, t).len() as u32, ceil_div(w, t) * ceil_div(h, t));
    }
}

#[test]
fn tiles_are_row_major() {
    let tiles = enumerate_tiles(100, 70, 32);
    let coords: Vec<(u32, u32)> = tiles.iter().map(|t| (t.x, t.y)).collect();
    assert_eq!(
        coords,
        vec![
            (0, 0), (32, 0), (64, 0), (96, 0),
            (0, 32), (32, 32), (64, 32), (96, 32),
            (0, 64), (32, 64), (64, 64), (96, 64),
        ]
    );
    assert!(tiles.iter().all(|t| t.pixels.is_none()));
}

#[test]
fn edge_tiles_are_clamped() {
    let tiles = enumerate_tiles(100, 70, 32);
    assert_eq!(tiles.len(), 12);
    for t in &tiles {
        let ew = if t.x == 96 { 4 } else { 32 };
        let eh = if t.y == 64 { 6 } else { 32 };
        assert_eq!((t.w, t.h), (ew, eh), "tile at {} {}", t.x, t.y);
    }
}

#[test]
fn degenerate_one_pixel_image() {
    let tiles = enumerate_tiles(1, 1, 32);
    assert_eq!(tiles.len(), 1);
    assert_eq!((tiles[0].x, tiles[0].y, tiles[0].w, tiles[0].h), (0, 0, 1, 1));
    assert!(RenderConfig::new(1, 1, 32, 1).is_ok());
}

#[test]
fn empty_image_has_no_tiles() {
    assert_eq!(enumerate_tiles(0, 10, 4).len(), 0);
    assert_eq!(enumerate_tiles(10, 0, 4).len(), 0);
}

#[test]
fn render_tile_uses_global_coordinates() {
    let mut t = Tile::new(32, 64, 3, 2);
    assert_eq!(t.status(), TileStatus::Clear);
    render_tile(&mut t, shade);
    assert_eq!(t.status(), TileStatus::Finished);
    assert_eq!((t.x, t.y, t.w, t.h), (32, 64, 3, 2));
    let px = t.pixels.as_ref().unwrap();
    assert_eq!(px.len(), 3 * 2 * 3);
    // pixel (i=2, j=1) sits at (1 * 3 + 2) * 3
    let off = (1 * 3 + 2) * 3;
    assert_eq!((px[off], px[off + 1], px[off + 2]), shade(34, 65));
    assert_eq!((px[0], px[1], px[2]), shade(32, 64));
}

#[test]
fn do_render_writes_row_major() {
    let mut buf = vec![0u8; 5 * 4 * 3];
    do_render(5, 4, &mut buf, shade);
    for j in 0..4u32 {
        for i in 0..5u32 {
            let n = ((j * 5 + i) * 3) as usize;
            assert_eq!((buf[n], buf[n + 1], buf[n + 2]), shade(i, j));
        }
    }
}

#[test]
fn end_to_end_matches_direct_render() {
    let mut tiles = enumerate_tiles(64, 64, 32);
    assert_eq!(tiles.len(), 4);
    assert!(tiles.iter().all(|t| t.w == 32 && t.h == 32));
    render_all(&mut tiles);
    let mut fb = Framebuffer::new(64, 64);
    fb.composite_tiles(tiles);
    let mut direct = vec![0u8; 64 * 64 * 3];
    do_render(64, 64, &mut direct, shade);
    assert_eq!(fb.snapshot(), direct);
}

#[test]
fn end_to_end_with_edge_tiles() {
    let mut tiles = enumerate_tiles(100, 70, 32);
    render_all(&mut tiles);
    let mut fb = Framebuffer::new(100, 70);
    fb.composite_tiles(tiles);
    let mut direct = vec![0u8; 100 * 70 * 3];
    do_render(100, 70, &mut direct, shade);
    assert_eq!(fb.snapshot(), direct);
}

#[test]
fn compositor_order_independent() {
    let mut tiles = enumerate_tiles(40, 30, 16);
    render_all(&mut tiles);
    let mut a = Framebuffer::new(40, 30);
    a.composite_tiles(tiles.clone());
    let mut reversed = tiles.clone();
    reversed.reverse();
    let mut b = Framebuffer::new(40, 30);
    b.composite_tiles(reversed);
    let mut shuffled = Vec::new();
    for k in [3usize, 0, 5, 1, 4, 2] {
        shuffled.push(tiles[k].clone());
    }
    let mut c = Framebuffer::new(40, 30);
    c.composite_tiles(shuffled);
    assert_eq!(a.snapshot(), b.snapshot());
    assert_eq!(a.snapshot(), c.snapshot());
}

#[test]
fn compositor_idempotent() {
    let mut t = Tile::new(2, 1, 3, 3);
    render_tile(&mut t, shade);
    let mut fb = Framebuffer::new(8, 5);
    assert!(fb.composite_tile(&t));
    let once = fb.snapshot();
    assert!(fb.composite_tile(&t));
    assert_eq!(fb.snapshot(), once);
}

#[test]
fn compositor_leaves_other_pixels() {
    let mut t = Tile::new(2, 1, 3, 2);
    render_tile(&mut t, shade);
    let mut fb = Framebuffer::new(6, 4);
    assert!(fb.composite_tile(&t));
    let bytes = fb.snapshot();
    for y in 0..4u32 {
        for x in 0..6u32 {
            let n = ((y * 6 + x) * 3) as usize;
            let got = (bytes[n], bytes[n + 1], bytes[n + 2]);
            if (2..5).contains(&x) && (1..3).contains(&y) {
                assert_eq!(got, shade(x, y));
            } else {
                assert_eq!(got, (0, 0, 0));
            }
        }
    }
}

#[test]
fn compositor_rejects_unfit_tiles() {
    let mut fb = Framebuffer::new(4, 4);
    let before = fb.snapshot();
    assert!(!fb.composite_tile(&Tile::new(0, 0, 2, 2)));
    let mut wide = Tile::new(3, 0, 2, 1);
    render_tile(&mut wide, shade);
    assert!(!fb.composite_tile(&wide));
    let mut short = Tile::new(0, 0, 2, 2);
    short.pixels = Some(vec![1u8; 5]);
    assert!(!fb.composite_tile(&short));
    assert_eq!(fb.snapshot(), before);
}

#[test]
fn framebuffer_starts_zeroed() {
    let fb = Framebuffer::new(3, 2);
    assert_eq!((fb.width(), fb.height()), (3, 2));
    assert_eq!(fb.snapshot(), vec![0u8; 18]);
}

#[test]
fn queue_hands_out_each_tile_once() {
    for &workers in &[1usize, 2, 8, 64] {
        let mut q = WorkQueue::from_tiles(enumerate_tiles(100, 70, 32));
        assert_eq!(q.len(), 12);
        let mut seen: Vec<Vec<(u32, u32)>> = vec![Vec::new(); workers];
        let mut turn = 0usize;
        while let Some(t) = q.claim() {
            seen[turn % workers].push((t.x, t.y));
            turn += 1;
        }
        assert!(q.claim().is_none());
        let mut all: Vec<(u32, u32)> = seen.into_iter().flatten().collect();
        assert_eq!(all.len(), 12);
        all.sort();
        all.dedup();
        assert_eq!(all.len(), 12, "workers {}", workers);
    }
}

#[test]
fn queue_is_fifo() {
    let mut q = WorkQueue::from_tiles(vec![Tile::new(0, 0, 1, 1), Tile::new(1, 0, 1, 1)]);
    q.push(Tile::new(2, 0, 1, 1));
    assert_eq!(q.claim().map(|t| t.x), Some(0));
    assert_eq!(q.claim().map(|t| t.x), Some(1));
    assert_eq!(q.claim().map(|t| t.x), Some(2));
    assert_eq!(q.len(), 0);
}

#[test]
fn config_errors() {
    assert_eq!(RenderConfig::new(0, 10, 32, 8), Err(ConfigError::ZeroWidth));
    assert_eq!(RenderConfig::new(10, 0, 32, 8), Err(ConfigError::ZeroHeight));
    assert_eq!(RenderConfig::new(10, 10, 0, 8), Err(ConfigError::ZeroTileSize));
    assert_eq!(RenderConfig::new(10, 10, 32, 0), Err(ConfigError::NoWorkers));
    assert_eq!(
        RenderConfig::new(320, 200, 32, 8),
        Ok(RenderConfig { width: 320, height: 200, tile_size: 32, workers: 8 })
    );
    assert_eq!(RenderConfig::new(u32::MAX, u32::MAX, 32, 8), Err(ConfigError::TooLarge));
}
