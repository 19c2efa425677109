use vstd::prelude::*;

verus! {

/// Why a render configuration was refused.
#[derive(Clone, Copy, Debug, PartialEq, Eq, Structural)]
pub enum ConfigError {
    ZeroWidth,
    ZeroHeight,
    ZeroTileSize,
    NoWorkers,
    /// The framebuffer's byte count does not fit in `usize`.
    TooLarge,
}

/// Image size, tile size and worker count, fixed before any worker starts.
#[derive(Clone, Copy, Debug, PartialEq, Eq, Structural)]
pub struct RenderConfig {
    pub width: u32,
    pub height: u32,
    pub tile_size: u32,
    pub workers: u32,
}

impl RenderConfig {
    /// Accepts a configuration whose sizes and worker count are positive
    /// and whose framebuffer can be addressed; the first condition that fails, in
    /// that order, names the error.
    pub fn new(width: u32, height: u32, tile_size: u32, workers: u32) -> (r: Result<
        RenderConfig,
        ConfigError,
    >)
        ensures
            width == 0 ==> r == Err::<RenderConfig, ConfigError>(ConfigError::ZeroWidth),
            width > 0 && height == 0 ==> r == Err::<RenderConfig, ConfigError>(
                ConfigError::ZeroHeight,
            ),
            width > 0 && height > 0 && tile_size == 0 ==> r == Err::<RenderConfig, ConfigError>(
                ConfigError::ZeroTileSize,
            ),
            width > 0 && height > 0 && tile_size > 0 && workers == 0 ==> r == Err::<
                RenderConfig,
                ConfigError,
            >(ConfigError::NoWorkers),
            width > 0 && height > 0 && tile_size > 0 && workers > 0 && width * height * 3
                > usize::MAX ==> r == Err::<RenderConfig, ConfigError>(ConfigError::TooLarge),
            width > 0 && height > 0 && tile_size > 0 && workers > 0 && width * height * 3
                <= usize::MAX ==> r == Ok::<RenderConfig, ConfigError>(
                (RenderConfig { width, height, tile_size, workers }),
            ),
    {
        if width == 0 {
            return Err(ConfigError::ZeroWidth);
        }
        if height == 0 {
            return Err(ConfigError::ZeroHeight);
        }
        if tile_size == 0 {
            return Err(ConfigError::ZeroTileSize);
        }
        if workers == 0 {
            return Err(ConfigError::NoWorkers);
        }
        proof {
            assert(width * height <= 0xffff_ffff * 0xffff_ffffu64) by (nonlinear_arith)
                requires
                    width <= 0xffff_ffff,
                    height <= 0xffff_ffff,
            ;
        }
        let bytes: u128 = (width as u128) * (height as u128) * 3;
        if bytes > usize::MAX as u128 {
            return Err(ConfigError::TooLarge);
        }
        Ok(RenderConfig { width, height, tile_size, workers })
    }
}

} // verus!
