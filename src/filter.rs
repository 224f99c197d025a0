use vstd::prelude::*;

use crate::math::clamp_spec;

verus! {

/// Position of pixel `(x, y)` in a row-major buffer `width` pixels wide.
pub fn xy_to_index(x: u32, y: u32, width: u32) -> (r: usize)
    requires
        y * width + x <= usize::MAX,
    ensures
        r == y * width + x,
{
    let row = (y as usize) * (width as usize);
    row + (x as usize)
}

/// Pixel `(x, y)` at position `index` of a row-major buffer `width` pixels wide.
pub fn index_to_xy(index: usize, width: u32) -> (r: (u32, u32))
    requires
        width > 0,
        index <= u32::MAX,
    ensures
        r.0 == (index as int) % (width as int),
        r.1 == (index as int) / (width as int),
{
    let i = index as u32;
    (i % width, i / width)
}

/// Coordinate `at + offset - half`, held to the image: `[0, size - 1]`.
pub fn neighbor_coord(at: u32, offset: u32, half: u32, size: u32) -> (r: u32)
    requires
        size > 0,
    ensures
        r == clamp_spec(at + offset - half, 0, size - 1),
{
    let shifted: i64 = (at as i64) + (offset as i64) - (half as i64);
    if shifted < 0 {
        0
    } else if shifted > (size - 1) as i64 {
        size - 1
    } else {
        shifted as u32
    }
}

/// The pixel at row-major position `n` of a `d` by `d` kernel centred on `(x, y)`
/// (kernel column `n / d`, row `n % d`), with coordinates clamped to the image.
pub open spec fn window_at(x: u32, y: u32, width: u32, height: u32, d: u32, n: int) -> (u32, u32) {
    (
        clamp_spec(x + n / (d as int) - d / 2, 0, width - 1) as u32,
        clamp_spec(y + n % (d as int) - d / 2, 0, height - 1) as u32,
    )
}

/// The neighbours that the bilateral kernel of diameter `diameter` weighs for pixel
/// `(x, y)`, kernel column by kernel column; near an edge the coordinates are
/// clamped to the image, so edge pixels repeat.
pub fn bilateral_neighbors(x: u32, y: u32, width: u32, height: u32, diameter: u32) -> (r: Vec<
    (u32, u32),
>)
    requires
        width > 0,
        height > 0,
        diameter * diameter <= usize::MAX,
    ensures
        r.len() == diameter * diameter,
        forall|n: int|
            0 <= n < r.len() ==> #[trigger] r@[n] == window_at(x, y, width, height, diameter, n),
{
    let half = diameter / 2;
    let mut r: Vec<(u32, u32)> = Vec::new();
    let mut i: u32 = 0;
    while i < diameter
        invariant
            i <= diameter,
            half == diameter / 2,
            width > 0,
            height > 0,
            r.len() == i * diameter,
            forall|n: int|
                0 <= n < r.len() ==> #[trigger] r@[n] == window_at(
                    x,
                    y,
                    width,
                    height,
                    diameter,
                    n,
                ),
        decreases diameter - i,
    {
        let nx = neighbor_coord(x, i, half, width);
        let mut j: u32 = 0;
        while j < diameter
            invariant
                i < diameter,
                j <= diameter,
                half == diameter / 2,
                width > 0,
                height > 0,
                nx == clamp_spec(x + i - half, 0, width - 1),
                r.len() == i * diameter + j,
                forall|n: int|
                    0 <= n < r.len() ==> #[trigger] r@[n] == window_at(
                        x,
                        y,
                        width,
                        height,
                        diameter,
                        n,
                    ),
            decreases diameter - j,
        {
            let ny = neighbor_coord(y, j, half, height);
            proof {
                let n = i * diameter + j;
                assert(n / (diameter as int) == i && n % (diameter as int) == j) by (nonlinear_arith)
                    requires
                        n == i * diameter + j,
                        0 <= j < diameter,
                        0 <= i,
                ;
            }
            r.push((nx, ny));
            j += 1;
        }
        proof {
            assert((i + 1) * diameter == i * diameter + diameter) by (nonlinear_arith);
        }
        i += 1;
    }
    r
}

/// Square of the distance between pixels `(x, y)` and `(i, j)`.
pub fn squared_distance(x: u32, y: u32, i: u32, j: u32) -> (r: u128)
    ensures
        r == (x - i) * (x - i) + (y - j) * (y - j),
{
    let dx: u128 = if x >= i {
        (x - i) as u128
    } else {
        (i - x) as u128
    };
    let dy: u128 = if y >= j {
        (y - j) as u128
    } else {
        (j - y) as u128
    };
    assert(dx * dx <= 0xffff_fffe_0000_0001) by (nonlinear_arith)
        requires
            dx <= 0xffff_ffff,
    ;
    assert(dy * dy <= 0xffff_fffe_0000_0001) by (nonlinear_arith)
        requires
            dy <= 0xffff_ffff,
    ;
    assert(dx * dx == (x - i) * (x - i)) by (nonlinear_arith)
        requires
            dx == (x - i) || dx == (i - x),
    ;
    assert(dy * dy == (y - j) * (y - j)) by (nonlinear_arith)
        requires
            dy == (y - j) || dy == (j - y),
    ;
    dx * dx + dy * dy
}

} // verus!
