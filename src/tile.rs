//! Pixel bounds of Web Mercator tiles.
use vstd::prelude::*;

verus! {

/// The source of coordinate inputs.
#[derive(Debug, Clone, Copy, PartialEq, Eq, Structural)]
pub enum Source {
    /// The WGS84 projection.
    WGS84,
    /// The Google (900913) projection.
    Google,
}

/// The tile size used when none is given.
pub const DEFAULT_TILE_SIZE: u16 = 512;

/// The pixel bounds `(min_x, min_y, max_x, max_y)` of tile (zoom, x, y)
/// with square tiles of `tile_size` pixels (512 when none is given).
pub fn tile_to_bbox(tile: (u8, u32, u32), tile_size: Option<u16>) -> (r: (u32, u32, u32, u32))
    requires
        ({
            let ts: int = match tile_size {
                Some(t) => t as int,
                None => 512,
            };
            &&& (tile.1 + 1) * ts <= u32::MAX
            &&& (tile.2 + 1) * ts <= u32::MAX
        }),
    ensures
        ({
            let ts: int = match tile_size {
                Some(t) => t as int,
                None => 512,
            };
            r == ((tile.1 * ts) as u32, (tile.2 * ts) as u32, ((tile.1 + 1) * ts) as u32, (
            (tile.2 + 1) * ts) as u32)
        }),
{
    let ts: u32 = match tile_size {
        Some(t) => t as u32,
        None => DEFAULT_TILE_SIZE as u32,
    };
    let (_zoom, x, y) = tile;
    proof {
        assert(x * ts <= (x + 1) * ts) by (nonlinear_arith);
        assert(y * ts <= (y + 1) * ts) by (nonlinear_arith);
        assert((x + 1) * ts == x * ts + ts) by (nonlinear_arith);
        assert((y + 1) * ts == y * ts + ts) by (nonlinear_arith);
    }
    let min_x = x * ts;
    let min_y = y * ts;
    let max_x = min_x + ts;
    let max_y = min_y + ts;
    (min_x, min_y, max_x, max_y)
}

} // verus!
