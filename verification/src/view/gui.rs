//! Identity of widgets and where the pointer is.

use vstd::prelude::*;

verus! {

/// Size of a text.
#[derive(Clone, Copy, Debug, PartialEq, Eq, Structural)]
pub enum TextSize {
    Basic,
    Small,
}

/// Identity of a widget.
#[derive(Clone, Copy, Debug, PartialEq, Eq, Structural, Hash)]
pub struct GuiId {
    pub id: u32,
}

/// A point or a corner on the screen, in pixels.
#[derive(Clone, Copy, Debug, PartialEq, Eq, Structural)]
pub struct ScreenPos {
    pub x: i32,
    pub y: i32,
}

/// Width and height on the screen, in pixels.
#[derive(Clone, Copy, Debug, PartialEq, Eq, Structural)]
pub struct ScreenSize {
    pub w: i32,
    pub h: i32,
}

/// Hands out widget ids, each one above the last.
pub struct GuiIds {
    last: u32,
}

impl GuiIds {
    /// The last id handed out (zero before the first).
    pub closed spec fn spec_last(&self) -> int {
        self.last as int
    }

    /// No id handed out yet.
    pub fn new() -> (g: GuiIds)
        ensures
            g.spec_last() == 0,
    {
        GuiIds { last: 0 }
    }

    /// A new widget id: one above the last.
    pub fn new_gui_id(&mut self) -> (id: GuiId)
        requires
            old(self).spec_last() < u32::MAX,
        ensures
            id.id == old(self).spec_last() + 1,
            final(self).spec_last() == id.id,
    {
        self.last = self.last + 1;
        GuiId { id: self.last }
    }
}

/// `point` lies in the rectangle at `loc` of size `dim`, edges included.
pub open spec fn in_rect(point: ScreenPos, loc: ScreenPos, dim: ScreenSize) -> bool {
    loc.x <= point.x <= loc.x + dim.w && loc.y <= point.y <= loc.y + dim.h
}

/// Whether `point` lies in the rectangle at `loc` of size `dim`, edges
/// included.
pub fn point_in_rect(point: ScreenPos, loc: ScreenPos, dim: ScreenSize) -> (b: bool)
    ensures
        b == in_rect(point, loc, dim),
{
    let x = point.x as i64;
    let y = point.y as i64;
    x >= loc.x as i64 && x <= loc.x as i64 + dim.w as i64 && y >= loc.y as i64 && y <= loc.y as i64 + dim.h as i64
}

/// How far, in pixels on each axis, the pointer may move between press
/// and release for the gesture to count as a tap.
pub const TAP_TOLERANCE: i64 = 20;

/// The pointer moved less than `TAP_TOLERANCE` pixels on each axis
/// between `press` and `pos`.
pub open spec fn is_tap_spec(pos: ScreenPos, press: ScreenPos) -> bool {
    -TAP_TOLERANCE < pos.x - press.x < TAP_TOLERANCE && -TAP_TOLERANCE < pos.y - press.y < TAP_TOLERANCE
}

/// Whether a press at `last_press_pos` released at `pos` was a tap
/// rather than a swipe.
pub fn is_tap(pos: ScreenPos, last_press_pos: ScreenPos) -> (b: bool)
    ensures
        b == is_tap_spec(pos, last_press_pos),
{
    let dx: i64 = pos.x as i64 - last_press_pos.x as i64;
    let dy: i64 = pos.y as i64 - last_press_pos.y as i64;
    let adx = if dx < 0 { -dx } else { dx };
    let ady = if dy < 0 { -dy } else { dy };
    adx < TAP_TOLERANCE && ady < TAP_TOLERANCE
}

} // verus!
