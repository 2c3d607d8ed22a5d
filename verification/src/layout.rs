//! Screen geometry: where the shelf window is placed at its edge of the work area, and
//! the zone near that edge in which a drag shows the shelf.
//!
//! All coordinates are physical pixels with the origin at the top left. Values that
//! come from a display scale factor (the shelf's thickness, the zone's margin) are
//! rounded to whole pixels before they reach this module.

use vstd::prelude::*;
use crate::settings::ShelfEdge;

verus! {

/// The part of a display not covered by task bars and docks.
#[derive(Debug, Clone, Copy)]
pub struct WorkArea {
    pub x: i32,
    pub y: i32,
    pub width: u32,
    pub height: u32,
}

/// The position and size given to the shelf window.
#[derive(Debug, Clone, Copy)]
pub struct WindowFrame {
    pub x: i32,
    pub y: i32,
    pub width: u32,
    pub height: u32,
}

/// The shelf's thickness across its edge: the rounded value, at least one pixel.
pub open spec fn thickness_of(rounded: int) -> int {
    if rounded < 1 {
        1
    } else {
        rounded
    }
}

/// At least one pixel.
pub open spec fn at_least_one(v: int) -> int {
    if v < 1 {
        1
    } else {
        v
    }
}

/// The frame of the shelf at `edge` of `wa` with thickness `t`: along the left and
/// right edges it is `t` wide and as tall as the work area, along the top and bottom
/// edges as wide as the work area and `t` tall, and it is flush with its edge.
pub open spec fn frame_at(edge: ShelfEdge, wa: WorkArea, t: int) -> (int, int, int, int) {
    match edge {
        ShelfEdge::Left => (wa.x as int, wa.y as int, t, wa.height as int),
        ShelfEdge::Right => (wa.x + wa.width - t, wa.y as int, t, wa.height as int),
        ShelfEdge::Top => (wa.x as int, wa.y as int, wa.width as int, t),
        ShelfEdge::Bottom => (wa.x as int, wa.y + wa.height - t, wa.width as int, t),
    }
}

/// The work area is small enough for its sides to be computed in `i32`, and the shelf
/// of thickness `t` fits in the coordinate range.
pub open spec fn layout_in_range(wa: WorkArea, t: int) -> bool {
    &&& wa.width <= i32::MAX
    &&& wa.height <= i32::MAX
    &&& wa.x + wa.width <= i32::MAX
    &&& wa.y + wa.height <= i32::MAX
    &&& wa.x + wa.width - t >= i32::MIN
    &&& wa.y + wa.height - t >= i32::MIN
}

/// Places the shelf window at `edge` of the work area `wa`; `rounded_thickness` is the
/// shelf's thickness in physical pixels as rounded from the display scale.
pub fn shelf_frame(edge: ShelfEdge, wa: WorkArea, rounded_thickness: i32) -> (r: WindowFrame)
    requires
        layout_in_range(wa, thickness_of(rounded_thickness as int)),
    ensures
        ({
            let (x, y, w, h) = frame_at(edge, wa, thickness_of(rounded_thickness as int));
            &&& r.x == x
            &&& r.y == y
            &&& r.width == at_least_one(w)
            &&& r.height == at_least_one(h)
        }),
{
    let t: i32 = if rounded_thickness < 1 { 1 } else { rounded_thickness };
    let width: i32 = wa.width as i32;
    let height: i32 = wa.height as i32;
    let (w, h, x, y): (i32, i32, i32, i32) = match edge {
        ShelfEdge::Left => (t, height, wa.x, wa.y),
        ShelfEdge::Right => (t, height, wa.x + width - t, wa.y),
        ShelfEdge::Top => (width, t, wa.x, wa.y),
        ShelfEdge::Bottom => (width, t, wa.x, wa.y + height - t),
    };
    let fw: u32 = if w < 1 { 1 } else { w as u32 };
    let fh: u32 = if h < 1 { 1 } else { h as u32 };
    WindowFrame { x, y, width: fw, height: fh }
}

/// Where the shelf lives on the primary display, used to tell whether the pointer is
/// near the shelf's edge. `edge_margin` is the zone's depth in physical pixels.
#[derive(Debug, Clone, Copy)]
pub struct EdgeGeometry {
    pub edge: ShelfEdge,
    pub work_area_x: i32,
    pub work_area_y: i32,
    pub work_area_width: u32,
    pub work_area_height: u32,
    pub edge_margin: i32,
}

/// The point lies in the zone along the configured edge: within `edge_margin` of that
/// edge (both bounds included) and within the work area's extent along it.
pub open spec fn in_zone(x: int, y: int, g: EdgeGeometry) -> bool {
    let min_x = g.work_area_x as int;
    let min_y = g.work_area_y as int;
    let max_x = g.work_area_x + g.work_area_width;
    let max_y = g.work_area_y + g.work_area_height;
    let m = g.edge_margin as int;
    match g.edge {
        ShelfEdge::Left => x >= min_x && x <= min_x + m && y >= min_y && y <= max_y,
        ShelfEdge::Right => x <= max_x && x >= max_x - m && y >= min_y && y <= max_y,
        ShelfEdge::Top => y >= min_y && y <= min_y + m && x >= min_x && x <= max_x,
        ShelfEdge::Bottom => y <= max_y && y >= max_y - m && x >= min_x && x <= max_x,
    }
}

/// Whether the point `(x, y)` lies in the zone along the configured shelf edge.
pub fn in_edge_zone(x: i32, y: i32, g: &EdgeGeometry) -> (r: bool)
    ensures
        r == in_zone(x as int, y as int, *g),
{
    let min_x: i64 = g.work_area_x as i64;
    let min_y: i64 = g.work_area_y as i64;
    let max_x: i64 = g.work_area_x as i64 + g.work_area_width as i64;
    let max_y: i64 = g.work_area_y as i64 + g.work_area_height as i64;
    let m: i64 = g.edge_margin as i64;
    let px: i64 = x as i64;
    let py: i64 = y as i64;
    match g.edge {
        ShelfEdge::Left => px >= min_x && px <= min_x + m && py >= min_y && py <= max_y,
        ShelfEdge::Right => px <= max_x && px >= max_x - m && py >= min_y && py <= max_y,
        ShelfEdge::Top => py >= min_y && py <= min_y + m && px >= min_x && px <= max_x,
        ShelfEdge::Bottom => py <= max_y && py >= max_y - m && px >= min_x && px <= max_x,
    }
}

/// Where the shelf is no thicker than the work area across its edge, it lies inside
/// the work area, spans it along the edge and touches the edge it is placed at.
pub proof fn lemma_frame_inside_work_area(edge: ShelfEdge, wa: WorkArea, t: int)
    requires
        t >= 1,
        match edge {
            ShelfEdge::Left | ShelfEdge::Right => t <= wa.width,
            ShelfEdge::Top | ShelfEdge::Bottom => t <= wa.height,
        },
    ensures
        ({
            let (x, y, w, h) = frame_at(edge, wa, t);
            &&& wa.x <= x && x + w <= wa.x + wa.width
            &&& wa.y <= y && y + h <= wa.y + wa.height
            &&& match edge {
                ShelfEdge::Left => x == wa.x && h == wa.height,
                ShelfEdge::Right => x + w == wa.x + wa.width && h == wa.height,
                ShelfEdge::Top => y == wa.y && w == wa.width,
                ShelfEdge::Bottom => y + h == wa.y + wa.height && w == wa.width,
            }
        }),
{
}

} // verus!
