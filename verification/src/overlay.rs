//! The decisions behind placing an overlay next to its anchor: which
//! side, which alignment runs across it, and whether to flip to the
//! opposite side when the first choice leaves the viewport.
//!
//! The geometry itself (positions and sizes) is floating point and is
//! computed by the caller; what is decided here only ever looks at
//! which side was asked for and whether a candidate overflows.
use vstd::prelude::*;

verus! {

/// The side of the anchor an overlay is placed on.
#[derive(Clone, Copy, Debug, PartialEq, Eq, Structural)]
pub enum Side {
    Bottom,
    Top,
    Left,
    Right,
}

/// Where along an axis a child sits relative to the span it is placed
/// in.
#[derive(Clone, Copy, Debug, PartialEq, Eq, Structural)]
pub enum Align {
    Center,
    Start,
    End,
}

impl Default for Side {
    fn default() -> (r: Side)
        ensures
            r == Side::Bottom,
    {
        Side::Bottom
    }
}

impl Default for Align {
    fn default() -> (r: Align)
        ensures
            r == Align::Center,
    {
        Align::Center
    }
}

/// The side across from `side`.
pub open spec fn opposite_side(side: Side) -> Side {
    match side {
        Side::Bottom => Side::Top,
        Side::Top => Side::Bottom,
        Side::Left => Side::Right,
        Side::Right => Side::Left,
    }
}

/// Whether `side` places the overlay above or below the anchor, so
/// that the overlay runs along the horizontal axis.
pub open spec fn is_vertical_side(side: Side) -> bool {
    side == Side::Top || side == Side::Bottom
}

impl Side {
    /// The side across from this one.
    pub fn opposite(self) -> (r: Side)
        ensures
            r == opposite_side(self),
    {
        match self {
            Side::Bottom => Side::Top,
            Side::Top => Side::Bottom,
            Side::Left => Side::Right,
            Side::Right => Side::Left,
        }
    }

    /// The alignment that applies across this side: the horizontal one
    /// above or below the anchor, the vertical one beside it.
    pub fn cross_align(self, h_align: Align, v_align: Align) -> (r: Align)
        ensures
            r == (if is_vertical_side(self) {
                h_align
            } else {
                v_align
            }),
    {
        match self {
            Side::Top | Side::Bottom => h_align,
            Side::Left | Side::Right => v_align,
        }
    }
}

/// Which candidate position an anchored overlay takes.
#[derive(Clone, Copy, Debug, PartialEq, Eq, Structural)]
pub enum AnchorPlacement {
    /// On the requested side, as computed.
    Primary,
    /// On the requested side, clamped into the viewport.
    PrimaryClamped,
    /// On the opposite side, clamped into the viewport.
    FlippedClamped,
}

/// Picks where an anchored overlay goes. With no viewport to flip
/// within, or when the requested side fits, the requested side is kept
/// as is; otherwise the opposite side is taken if it fits, and either
/// way the result is clamped into the viewport.
pub fn anchor_placement(has_viewport: bool, primary_overflows: bool, flipped_overflows: bool) -> (r:
    AnchorPlacement)
    ensures
        r == (if !has_viewport || !primary_overflows {
            AnchorPlacement::Primary
        } else if flipped_overflows {
            AnchorPlacement::PrimaryClamped
        } else {
            AnchorPlacement::FlippedClamped
        }),
{
    if !has_viewport || !primary_overflows {
        AnchorPlacement::Primary
    } else if flipped_overflows {
        AnchorPlacement::PrimaryClamped
    } else {
        AnchorPlacement::FlippedClamped
    }
}

/// Whether overlays may flip within the viewport: only an anchored
/// overlay with flipping enabled does.
pub fn flips_within_viewport(flip: bool, has_anchor: bool) -> (r: bool)
    ensures
        r == (flip && has_anchor),
{
    flip && has_anchor
}

/// Whether an overlay widens the overlay's own size: only when it is
/// neither anchored nor clipped.
pub fn overlay_extends_size(has_anchor: bool, clip: bool) -> (r: bool)
    ensures
        r == (!has_anchor && !clip),
{
    !has_anchor && !clip
}

/// Flipping twice returns to the side asked for, a flip always changes
/// the side, and it keeps the axis the overlay runs along.
pub proof fn law_opposite_involution(side: Side)
    ensures
        opposite_side(opposite_side(side)) == side,
        opposite_side(side) != side,
        is_vertical_side(opposite_side(side)) == is_vertical_side(side),
{
}

} // verus!
