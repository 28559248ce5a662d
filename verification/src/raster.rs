//! Where grid points fall on a pixel raster whose centre is the origin of
//! the grid.

use crate::point::Point;
use vstd::prelude::*;

verus! {

/// The side of the square raster that holds a shape of the given radius:
/// twice the radius, at most `u16::MAX`.
#[must_use]
pub fn radius_to_size(radius: u16) -> (size: u16)
    ensures
        size == if 2 * radius <= u16::MAX {
            2 * radius
        } else {
            u16::MAX as int
        },
{
    let doubled: u32 = radius as u32 * 2;
    if doubled <= 0xffff {
        doubled as u16
    } else {
        0xffff
    }
}

/// The centre of a raster, as a pair of numbers.
pub open spec fn center_of(width: int, height: int) -> (int, int) {
    ((width - 1) / 2, (height - 1) / 2)
}

/// The pixel at the centre of a raster of the given size.
#[must_use]
pub fn image_center(width: u32, height: u32) -> (center: (u32, u32))
    requires
        width >= 1,
        height >= 1,
    ensures
        (center.0 as int, center.1 as int) == center_of(width as int, height as int),
{
    ((width - 1) / 2, (height - 1) / 2)
}

/// The pixel of a grid point, as a pair of numbers: columns count from the
/// centre to the right, rows from the centre upwards, while pixel rows count
/// from the top downwards.
pub open spec fn pixel_of(point: Point, width: int, height: int) -> (int, int) {
    let center = center_of(width, height);
    (center.0 + point.x, (height - 1) - (center.1 + point.y))
}

/// Whether a grid point lies no further from the centre of the raster than
/// the centre lies from its left and top edge.
pub open spec fn within_reach(point: Point, width: int, height: int) -> bool {
    let center = center_of(width, height);
    -center.0 <= point.x <= center.0 && -center.1 <= point.y <= center.1
}

/// The pixel onto which a grid point falls; none when the point lies beyond
/// the reach of the raster.
#[must_use]
pub fn centralize(point: Point, width: u32, height: u32) -> (pixel: Option<(u32, u32)>)
    requires
        width >= 1,
        height >= 1,
    ensures
        match pixel {
            Some(p) => within_reach(point, width as int, height as int) && (p.0 as int, p.1 as int)
                == pixel_of(point, width as int, height as int) && p.0 < width && p.1 < height,
            None => !within_reach(point, width as int, height as int),
        },
{
    let center = image_center(width, height);
    let x: i64 = point.x as i64;
    let y: i64 = point.y as i64;
    let reach_x: i64 = center.0 as i64;
    let reach_y: i64 = center.1 as i64;
    if x > reach_x || -x > reach_x || y > reach_y || -y > reach_y {
        return None;
    }
    let column: i64 = reach_x + x;
    let row: i64 = (height as i64 - 1) - (reach_y + y);
    Some((column as u32, row as u32))
}

} // verus!
