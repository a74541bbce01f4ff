//! The per-pointer gesture state machine: press, drag, click and hover.
//!
//! One [`PointerState`] runs per pointer. A press starts only on a hit
//! target; moving it past the drag threshold turns it into a drag,
//! which captures the pointer to the press target and suppresses the
//! click; releasing it on its target within the click slop is a click.
//! While no button is held, moves report hover and enter/leave.
//!
//! Positions are opaque here (`P`): the caller measures distances and
//! tells the machine whether a move crossed the drag threshold or a
//! release stayed within the click slop, and computes local points and
//! deltas from the positions each action hands back.
use vstd::prelude::*;

use crate::element::ElementId;

verus! {

/// Semantic role of a pressed button, classified once by the backend.
#[derive(Debug, Clone, Copy, PartialEq, Eq, Structural)]
pub enum ButtonRole {
    /// The primary button (left mouse, primary tap).
    Primary,
    /// The secondary button (right mouse, context).
    Secondary,
    /// The middle button.
    Middle,
    /// Any other button.
    Other,
}

/// A pointer's full identity: the device it came from, and which
/// pointer on that device.
#[derive(Debug, Clone, Copy, PartialEq, Eq, Hash)]
pub struct PointerId<Device, Pointer> {
    /// The device the pointer belongs to.
    pub device: Device,
    /// The pointer within that device.
    pub pointer: Pointer,
}

/// Marks an element that carries one of the pointer handlers; only
/// such elements are indexed for hit-testing.
#[derive(Debug, Clone, Copy, PartialEq, Eq, Structural)]
pub struct HitTarget;

/// The pointer crossed onto the element, at `local` relative to it.
#[derive(Debug, Clone, Copy)]
pub struct PointerEnter<Id, P> {
    pub id: Id,
    pub local: P,
}

/// The pointer crossed off the element.
#[derive(Debug, Clone, Copy)]
pub struct PointerLeave<Id> {
    pub id: Id,
}

/// The element resolved under a pointer position, and the position
/// relative to that element's origin.
#[derive(Debug, Clone, Copy)]
pub struct Hit<P> {
    pub id: ElementId,
    pub local: P,
}

/// An in-progress press: tracked from button-down until release or
/// cancel.
#[derive(Debug, Clone, Copy)]
pub struct Press<P> {
    pub target: ElementId,
    pub button: ButtonRole,
    /// Where the press began, in absolute coordinates.
    pub press_global: P,
    /// Press position relative to the target's origin.
    pub press_local: P,
    /// Pointer position at the previous drag event.
    pub last_global: P,
    /// Whether the press has crossed the drag threshold.
    pub dragging: bool,
}

/// Per-pointer recognizer state.
#[derive(Debug, Clone, Copy)]
pub struct PointerState<P> {
    /// The element the pointer is currently over, while not pressed.
    pub hovering: Option<ElementId>,
    /// The active press, if a button is held.
    pub press: Option<Press<P>>,
}

/// What a move asks the caller to deliver.
#[derive(Debug, Clone, Copy)]
pub enum MoveAction<P> {
    /// Nothing: a press has not yet crossed the drag threshold.
    Nothing,
    /// A drag began on `target`; it started at `start`, at `local`
    /// relative to the target.
    DragStart { target: ElementId, start: P, local: P },
    /// The drag on `target` moved; the caller derives the local point
    /// from `press_local + (pos - press_global)` and the delta from
    /// `pos - previous`.
    Drag { target: ElementId, press_local: P, press_global: P, previous: P },
    /// No button is held: deliver a leave to `leave`, an enter to
    /// `enter`, and a hover (bubbling) to `hover`, each when present.
    Hover { leave: Option<ElementId>, enter: Option<Hit<P>>, hover: Option<Hit<P>> },
}

/// What a release asks the caller to deliver.
#[derive(Debug, Clone, Copy)]
pub enum UpAction<P> {
    /// Nothing happens.
    Nothing,
    /// The drag on `target` ended; the caller derives the local point
    /// from `press_local + (pos - press_global)`.
    DragEnd { target: ElementId, press_local: P, press_global: P },
    /// A click on `target` at `local`: a raw click always, then the
    /// click of `role` when that role is primary or secondary.
    Click { target: ElementId, local: P, role: ButtonRole },
}

/// The drag a cancellation ends, if a drag was under way: the caller
/// derives the local point from `press_local + (last_global -
/// press_global)`.
#[derive(Debug, Clone, Copy)]
pub struct CancelledDrag<P> {
    pub target: ElementId,
    pub press_local: P,
    pub press_global: P,
    pub last_global: P,
}


/// The element ids a hit resolves to, if any.
pub open spec fn hit_id<P>(hit: Option<Hit<P>>) -> Option<ElementId> {
    match hit {
        Some(h) => Some(h.id),
        None => None,
    }
}

/// A move to `pos` over `hit`, given whether the move crossed the drag
/// threshold: the next state and what to deliver.
pub open spec fn spec_moved<P>(s: PointerState<P>, pos: P, hit: Option<Hit<P>>, past_threshold: bool) -> (PointerState<P>, MoveAction<P>) {
    match s.press {
        Some(press) => if !press.dragging {
            if !past_threshold {
                (s, MoveAction::Nothing)
            } else {
                (
                    PointerState { press: Some(Press { dragging: true, last_global: pos, ..press }), ..s },
                    MoveAction::DragStart { target: press.target, start: press.press_global, local: press.press_local },
                )
            }
        } else {
            (
                PointerState { press: Some(Press { last_global: pos, ..press }), ..s },
                MoveAction::Drag {
                    target: press.target,
                    press_local: press.press_local,
                    press_global: press.press_global,
                    previous: press.last_global,
                },
            )
        },
        None => {
            let changed = hit_id(hit) != s.hovering;
            (
                PointerState { hovering: hit_id(hit), press: None },
                MoveAction::Hover {
                    leave: if changed { s.hovering } else { None },
                    enter: if changed { hit } else { None },
                    hover: hit,
                },
            )
        },
    }
}

/// A release over `hit`, given whether it stayed within the click slop
/// of the press: the next state and what to deliver.
pub open spec fn spec_up<P>(s: PointerState<P>, hit: Option<Hit<P>>, within_slop: bool) -> (PointerState<P>, UpAction<P>) {
    match s.press {
        None => (s, UpAction::Nothing),
        Some(press) => {
            let next = PointerState { hovering: hit_id(hit), press: None };
            if press.dragging {
                (next, UpAction::DragEnd { target: press.target, press_local: press.press_local, press_global: press.press_global })
            } else {
                match hit {
                    Some(h) => if h.id == press.target && within_slop {
                        (next, UpAction::Click { target: press.target, local: h.local, role: press.button })
                    } else {
                        (next, UpAction::Nothing)
                    },
                    None => (next, UpAction::Nothing),
                }
            }
        },
    }
}

impl<P: Copy> PointerState<P> {
    /// A pointer over nothing, with no button held.
    pub fn new() -> (r: PointerState<P>)
        ensures
            r.hovering is None,
            r.press is None,
    {
        PointerState { hovering: None, press: None }
    }

    /// Returns the active press, if any.
    pub fn press(&self) -> (r: Option<Press<P>>)
        ensures
            r == self.press,
    {
        self.press
    }

    /// Records a button-down of role `role` at `pos`. A press starts
    /// only on a hit target and is held until release or cancel.
    pub fn down(&mut self, role: ButtonRole, pos: P, hit: Option<Hit<P>>)
        ensures
            final(self).hovering == old(self).hovering,
            hit is None ==> final(self).press == old(self).press,
            hit matches Some(h) ==> final(self).press == Some(
                Press {
                    target: h.id,
                    button: role,
                    press_global: pos,
                    press_local: h.local,
                    last_global: pos,
                    dragging: false,
                },
            ),
    {
        match hit {
            None => {},
            Some(hit) => {
                self.press = Some(
                    Press {
                        target: hit.id,
                        button: role,
                        press_global: pos,
                        press_local: hit.local,
                        last_global: pos,
                        dragging: false,
                    },
                );
            },
        }
    }

    /// Records a move to `pos`, over `hit`. While pressed: a press that
    /// has not crossed the drag threshold (`past_threshold` false) stays
    /// as it is; crossing it starts a drag; each later move is a drag
    /// step. While not pressed: hover, plus leave/enter when the
    /// element under the pointer changed.
    pub fn moved(&mut self, pos: P, hit: Option<Hit<P>>, past_threshold: bool) -> (r: MoveAction<P>)
        ensures
            (*final(self), r) == spec_moved(*old(self), pos, hit, past_threshold),
    {
        match self.press {
            Some(press) => {
                if !press.dragging {
                    if !past_threshold {
                        return MoveAction::Nothing;
                    }
                    self.press = Some(
                        Press {
                            target: press.target,
                            button: press.button,
                            press_global: press.press_global,
                            press_local: press.press_local,
                            last_global: pos,
                            dragging: true,
                        },
                    );
                    return MoveAction::DragStart {
                        target: press.target,
                        start: press.press_global,
                        local: press.press_local,
                    };
                }
                self.press = Some(
                    Press {
                        target: press.target,
                        button: press.button,
                        press_global: press.press_global,
                        press_local: press.press_local,
                        last_global: pos,
                        dragging: true,
                    },
                );
                MoveAction::Drag {
                    target: press.target,
                    press_local: press.press_local,
                    press_global: press.press_global,
                    previous: press.last_global,
                }
            },
            None => {
                let new_top = match hit {
                    Some(h) => Some(h.id),
                    None => None,
                };
                let changed = !same_element(new_top, self.hovering);
                let leave = if changed {
                    self.hovering
                } else {
                    None
                };
                let enter = if changed {
                    hit
                } else {
                    None
                };
                self.hovering = new_top;
                MoveAction::Hover { leave, enter, hover: hit }
            },
        }
    }

    /// Records a button-up over `hit`: ends a drag, or clicks when the
    /// press is released on its own target within the click slop
    /// (`within_slop`). After the release the pointer hovers whatever it
    /// landed on.
    pub fn up(&mut self, hit: Option<Hit<P>>, within_slop: bool) -> (r: UpAction<P>)
        ensures
            (*final(self), r) == spec_up(*old(self), hit, within_slop),
    {
        let press = match self.press {
            Some(p) => p,
            None => {
                return UpAction::Nothing;
            },
        };
        self.press = None;
        self.hovering = match hit {
            Some(h) => Some(h.id),
            None => None,
        };
        if press.dragging {
            return UpAction::DragEnd {
                target: press.target,
                press_local: press.press_local,
                press_global: press.press_global,
            };
        }
        match hit {
            None => UpAction::Nothing,
            Some(h) => {
                if h.id != press.target || !within_slop {
                    UpAction::Nothing
                } else {
                    UpAction::Click { target: press.target, local: h.local, role: press.button }
                }
            },
        }
    }

    /// Aborts a pending click and ends any active drag, so handlers can
    /// clean up.
    pub fn cancel(&mut self) -> (r: Option<CancelledDrag<P>>)
        ensures
            final(self).press is None,
            final(self).hovering == old(self).hovering,
            r == (match old(self).press {
                Some(press) => if press.dragging {
                    Some(
                        CancelledDrag {
                            target: press.target,
                            press_local: press.press_local,
                            press_global: press.press_global,
                            last_global: press.last_global,
                        },
                    )
                } else {
                    None
                },
                None => None,
            }),
    {
        let press = self.press;
        self.press = None;
        match press {
            Some(press) => {
                if press.dragging {
                    Some(
                        CancelledDrag {
                            target: press.target,
                            press_local: press.press_local,
                            press_global: press.press_global,
                            last_global: press.last_global,
                        },
                    )
                } else {
                    None
                }
            },
            None => None,
        }
    }
}

/// Whether two optional elements are the same.
pub fn same_element(a: Option<ElementId>, b: Option<ElementId>) -> (r: bool)
    ensures
        r == (a == b),
{
    match (a, b) {
        (Some(x), Some(y)) => x == y,
        (None, None) => true,
        _ => false,
    }
}

/// A drag suppresses the click: once a press has crossed the drag
/// threshold, any further moves keep it a drag, and its release ends
/// the drag instead of clicking, wherever it lands.
pub proof fn law_drag_suppresses_click<P>(
    s: PointerState<P>,
    pos: P,
    hit: Option<Hit<P>>,
    later: Seq<(P, Option<Hit<P>>, bool)>,
    release: Option<Hit<P>>,
    within_slop: bool,
)
    requires
        s.press is Some,
    ensures
        ({
            let dragging = spec_moved(s, pos, hit, true).0;
            let moved_on = moves(dragging, later);
            &&& moved_on.press matches Some(p) && p.dragging && p.target == s.press.unwrap().target
            &&& spec_up(moved_on, release, within_slop).1 is DragEnd
        }),
{
    lemma_moves_keep_drag(spec_moved(s, pos, hit, true).0, later);
}

/// The state after a sequence of moves.
pub open spec fn moves<P>(s: PointerState<P>, steps: Seq<(P, Option<Hit<P>>, bool)>) -> PointerState<P>
    decreases steps.len(),
{
    if steps.len() == 0 {
        s
    } else {
        moves(spec_moved(s, steps[0].0, steps[0].1, steps[0].2).0, steps.drop_first())
    }
}

proof fn lemma_moves_keep_drag<P>(s: PointerState<P>, steps: Seq<(P, Option<Hit<P>>, bool)>)
    requires
        s.press matches Some(p) && p.dragging,
    ensures
        moves(s, steps).press matches Some(p) && p.dragging && p.target == s.press.unwrap().target,
    decreases steps.len(),
{
    if steps.len() > 0 {
        lemma_moves_keep_drag(spec_moved(s, steps[0].0, steps[0].1, steps[0].2).0, steps.drop_first());
    }
}

/// A click needs the press and the release on the same element, within
/// the click slop, with no drag in between.
pub proof fn law_click_needs_same_target<P>(s: PointerState<P>, hit: Option<Hit<P>>, within_slop: bool)
    ensures
        spec_up(s, hit, within_slop).1 matches UpAction::Click { target, .. } ==> {
            &&& s.press matches Some(p) && !p.dragging && p.target == target
            &&& hit matches Some(h) && h.id == target
            &&& within_slop
        },
{
}

/// Hover changes come in pairs: when the element under an unpressed
/// pointer changes, the element it was over gets the leave and the new
/// one the enter; otherwise neither is sent.
pub proof fn law_enter_leave_pair<P>(s: PointerState<P>, pos: P, hit: Option<Hit<P>>, past: bool)
    requires
        s.press is None,
    ensures
        spec_moved(s, pos, hit, past).1 matches MoveAction::Hover { leave, enter, .. } && (if hit_id(hit) != s.hovering {
            leave == s.hovering && enter == hit
        } else {
            leave is None && enter is None
        }),
        spec_moved(s, pos, hit, past).0.hovering == hit_id(hit),
{
}

/// Drag deltas are per step: after a move to `p1` that starts or
/// continues a drag, the press remembers `p1`, and the next move, to
/// anywhere, is a drag step of the same press on the same target whose
/// previous position is `p1`, so its delta runs from the move before
/// and not from where the drag started.
pub proof fn law_drag_steps_are_relative<P>(
    s: PointerState<P>,
    p1: P,
    h1: Option<Hit<P>>,
    t1: bool,
    p2: P,
    h2: Option<Hit<P>>,
    t2: bool,
)
    requires
        s.press is Some,
    ensures
        ({
            let (s1, a1) = spec_moved(s, p1, h1, t1);
            let press = s.press.unwrap();
            (a1 is DragStart || a1 is Drag) ==> {
                &&& s1.press matches Some(q) && q.last_global == p1 && q.dragging && q.target == press.target
                &&& spec_moved(s1, p2, h2, t2).1 matches MoveAction::Drag { target, press_local, press_global, previous }
                    && previous == p1 && target == press.target && press_local == press.press_local
                    && press_global == press.press_global
            }
        }),
{
}

/// Hover goes out on every move while no button is held, to whatever
/// is under the pointer, whether or not that element changed: the
/// first move over `hit` hovers `hit`, and the move after it hovers
/// `hit2`, even over the same element.
pub proof fn law_hover_on_every_move<P>(
    s: PointerState<P>,
    pos: P,
    hit: Option<Hit<P>>,
    past: bool,
    pos2: P,
    hit2: Option<Hit<P>>,
    past2: bool,
)
    requires
        s.press is None,
    ensures
        spec_moved(s, pos, hit, past).1 matches MoveAction::Hover { hover, .. } && hover == hit,
        spec_moved(spec_moved(s, pos, hit, past).0, pos2, hit2, past2).1 matches MoveAction::Hover { hover, .. }
            && hover == hit2,
{
}

} // verus!
