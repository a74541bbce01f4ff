//! Click and hover recognition over raw pointer presses.
//!
//! Every button held down is tracked as a press, with the element
//! under it; a release is matched to the press of the same pointer and
//! button, and clicks when it lands on that same element within the
//! click slop. The element under the pointer is tracked to report
//! enter and leave.
//!
//! Pointer ids and buttons are the backend's own types, compared with
//! their `==`; positions are opaque, the caller measures the slop.
use vstd::prelude::*;
use vstd::std_specs::cmp::PartialEqSpec;

use crate::element::ElementId;
use crate::gesture::ButtonRole;

verus! {

/// Identifies a single pointer: the mouse is [`PointerId::mouse`] (id
/// 0) and each touch contact gets its own id.
#[derive(Debug, Clone, Copy, Eq, Hash)]
pub struct PointerId(pub u64);

impl PartialEq for PointerId {
    fn eq(&self, other: &Self) -> (r: bool) {
        self.0 == other.0
    }
}

impl vstd::std_specs::cmp::PartialEqSpecImpl for PointerId {
    open spec fn obeys_eq_spec() -> bool {
        true
    }

    open spec fn eq_spec(&self, other: &Self) -> bool {
        self.0 == other.0
    }
}

impl PointerId {
    /// The mouse pointer.
    pub fn mouse() -> (r: PointerId)
        ensures
            r.0 == 0,
    {
        PointerId(0)
    }
}

/// A pressable button on a pointer. Touch contacts report
/// [`PointerButton::Primary`].
#[derive(Debug, Clone, Copy, Eq, Hash)]
pub enum PointerButton {
    Primary,
    Secondary,
    Middle,
    Other(u16),
}

impl PartialEq for PointerButton {
    fn eq(&self, other: &Self) -> (r: bool) {
        match (self, other) {
            (PointerButton::Primary, PointerButton::Primary) => true,
            (PointerButton::Secondary, PointerButton::Secondary) => true,
            (PointerButton::Middle, PointerButton::Middle) => true,
            (PointerButton::Other(a), PointerButton::Other(b)) => *a == *b,
            _ => false,
        }
    }
}

impl vstd::std_specs::cmp::PartialEqSpecImpl for PointerButton {
    open spec fn obeys_eq_spec() -> bool {
        true
    }

    open spec fn eq_spec(&self, other: &Self) -> bool {
        *self == *other
    }
}

/// Maps a native button to its [`ButtonRole`], decided once by the
/// backend.
pub trait ClassifyButton {
    fn role(self) -> ButtonRole;
}

/// A button held down: which pointer and button, where, and the element
/// under it then, if any.
#[derive(Debug, Clone, Copy)]
pub struct TrackedPress<Id, Btn, P> {
    pub pointer: Id,
    pub button: Btn,
    pub pos: P,
    pub target: Option<ElementId>,
}

/// The enter/leave pair a change of the hovered element produces.
#[derive(Debug, Clone, Copy, PartialEq, Eq, Structural)]
pub struct HoverChange {
    /// The element the pointer left, if it was over one.
    pub left: Option<ElementId>,
    /// The element the pointer entered, if it is over one.
    pub entered: Option<ElementId>,
}

/// The presses in flight and the element the pointer is over.
pub struct PressRecognizer<Id, Btn, P> {
    presses: Vec<TrackedPress<Id, Btn, P>>,
    hovered: Option<ElementId>,
}

/// Whether `press` belongs to `pointer` and `button`.
pub open spec fn press_matches<Id: PartialEqSpec, Btn: PartialEqSpec, P>(
    press: TrackedPress<Id, Btn, P>,
    pointer: Id,
    button: Btn,
) -> bool {
    press.pointer.eq_spec(&pointer) && press.button.eq_spec(&button)
}

/// The presses of pointers other than `pointer`, in order.
pub open spec fn presses_without<Id: PartialEqSpec, Btn, P>(
    presses: Seq<TrackedPress<Id, Btn, P>>,
    pointer: Id,
) -> Seq<TrackedPress<Id, Btn, P>>
    decreases presses.len(),
{
    if presses.len() == 0 {
        Seq::empty()
    } else if presses.last().pointer.eq_spec(&pointer) {
        presses_without(presses.drop_last(), pointer)
    } else {
        presses_without(presses.drop_last(), pointer).push(presses.last())
    }
}

/// `presses` with the entry at `i` replaced by the last one, and the
/// last one dropped.
pub open spec fn swap_removed<T>(presses: Seq<T>, i: int) -> Seq<T> {
    presses.update(i, presses.last()).drop_last()
}

impl<Id: Copy + PartialEq + PartialEqSpec, Btn: Copy + PartialEq + PartialEqSpec, P: Copy> PressRecognizer<Id, Btn, P> {
    /// The presses in flight, in the order they are kept.
    pub closed spec fn presses(&self) -> Seq<TrackedPress<Id, Btn, P>> {
        self.presses@
    }

    /// The element the pointer is over, if any.
    pub closed spec fn hovered(&self) -> Option<ElementId> {
        self.hovered
    }

    /// No press in flight, over nothing.
    pub fn new() -> (r: Self)
        ensures
            r.presses().len() == 0,
            r.hovered() is None,
    {
        PressRecognizer { presses: Vec::new(), hovered: None }
    }

    /// Records a button going down at `pos` over `target`. Nothing is
    /// delivered yet.
    pub fn pointer_down(&mut self, pointer: Id, button: Btn, pos: P, target: Option<ElementId>)
        ensures
            final(self).presses() == old(self).presses().push(TrackedPress { pointer, button, pos, target }),
            final(self).hovered() == old(self).hovered(),
    {
        self.presses.push(TrackedPress { pointer, button, pos, target });
    }

    /// Removes and returns the first press of `pointer` and `button`, if
    /// one is in flight; the last press takes its place.
    pub fn take_press(&mut self, pointer: Id, button: Btn) -> (r: Option<TrackedPress<Id, Btn, P>>)
        ensures
            final(self).hovered() == old(self).hovered(),
            Id::obeys_eq_spec() && Btn::obeys_eq_spec() ==> match r {
                None => {
                    &&& forall|i: int|
                        0 <= i < old(self).presses().len() ==> !press_matches(#[trigger] old(self).presses()[i], pointer, button)
                    &&& final(self).presses() == old(self).presses()
                },
                Some(p) => exists|i: int|
                    {
                        &&& 0 <= i < old(self).presses().len()
                        &&& press_matches(#[trigger] old(self).presses()[i], pointer, button)
                        &&& forall|j: int| 0 <= j < i ==> !press_matches(#[trigger] old(self).presses()[j], pointer, button)
                        &&& p == old(self).presses()[i]
                        &&& final(self).presses() == swap_removed(old(self).presses(), i)
                    },
            },
    {
        let mut i: usize = 0;
        while i < self.presses.len()
            invariant
                i <= self.presses@.len(),
                *self == *old(self),
                Id::obeys_eq_spec() && Btn::obeys_eq_spec() ==> forall|j: int|
                    0 <= j < i ==> !press_matches(#[trigger] self.presses@[j], pointer, button),
            decreases self.presses@.len() - i,
        {
            let same_pointer = self.presses[i].pointer == pointer;
            let same_button = self.presses[i].button == button;
            if same_pointer && same_button {
                let ghost before = self.presses@;
                let p = self.presses.swap_remove(i);
                proof {
                    if Id::obeys_eq_spec() && Btn::obeys_eq_spec() {
                        let ghost olds = old(self).presses();
                        assert(before == olds);
                        assert(press_matches(olds[i as int], pointer, button));
                        assert(p == olds[i as int]);
                        assert(self.presses@ =~= swap_removed(olds, i as int));
                        assert(forall|j: int| 0 <= j < i ==> !press_matches(#[trigger] olds[j], pointer, button));
                    }
                }
                return Some(p);
            }
            i = i + 1;
        }
        None
    }

    /// Updates the hovered element to `target`. Returns the leave/enter
    /// pair when it changed, or `None` when the pointer is still over the
    /// same element (or still over nothing).
    pub fn pointer_moved(&mut self, target: Option<ElementId>) -> (r: Option<HoverChange>)
        ensures
            final(self).presses() == old(self).presses(),
            final(self).hovered() == target,
            target == old(self).hovered() ==> r is None,
            target != old(self).hovered() ==> r == Some(HoverChange { left: old(self).hovered(), entered: target }),
    {
        if crate::gesture::same_element(target, self.hovered) {
            return None;
        }
        let left = self.hovered;
        self.hovered = target;
        Some(HoverChange { left, entered: target })
    }

    /// Discards every press of `pointer`, and drops the hover, returning
    /// the element left, if any.
    pub fn cancel(&mut self, pointer: Id) -> (r: Option<ElementId>)
        ensures
            r == old(self).hovered(),
            final(self).hovered() is None,
            Id::obeys_eq_spec() ==> final(self).presses() == presses_without(old(self).presses(), pointer),
    {
        let mut kept: Vec<TrackedPress<Id, Btn, P>> = Vec::new();
        let mut i: usize = 0;
        while i < self.presses.len()
            invariant
                i <= self.presses@.len(),
                self.presses@ == old(self).presses(),
                Id::obeys_eq_spec() ==> kept@ == presses_without(self.presses@.take(i as int), pointer),
            decreases self.presses@.len() - i,
        {
            let p = self.presses[i];
            proof {
                assert(self.presses@.take(i + 1).drop_last() =~= self.presses@.take(i as int));
                assert(self.presses@.take(i + 1).last() == p);
            }
            if !(p.pointer == pointer) {
                kept.push(p);
            }
            i = i + 1;
        }
        proof {
            assert(self.presses@.take(self.presses@.len() as int) =~= self.presses@);
        }
        self.presses = kept;
        let left = self.hovered;
        self.hovered = None;
        left
    }
}

/// A cancelled pointer has no press left, whatever its button, so no
/// later release of it can click.
pub proof fn law_cancel_leaves_no_press<Id: PartialEqSpec, Btn: PartialEqSpec, P>(
    presses: Seq<TrackedPress<Id, Btn, P>>,
    pointer: Id,
    button: Btn,
)
    ensures
        forall|i: int|
            0 <= i < presses_without(presses, pointer).len() ==> !press_matches(
                #[trigger] presses_without(presses, pointer)[i],
                pointer,
                button,
            ),
    decreases presses.len(),
{
    if presses.len() > 0 {
        law_cancel_leaves_no_press(presses.drop_last(), pointer, button);
        let rest = presses_without(presses.drop_last(), pointer);
        if !presses.last().pointer.eq_spec(&pointer) {
            assert forall|i: int| 0 <= i < rest.push(presses.last()).len() implies !press_matches(
                #[trigger] rest.push(presses.last())[i],
                pointer,
                button,
            ) by {
                if i < rest.len() {
                    assert(rest.push(presses.last())[i] == rest[i]);
                }
            }
        }
    }
}

/// The element a release clicks: the press target, when the press
/// landed on an element, the release resolves to that same element,
/// and the pointer did not travel past the click slop.
pub fn click_target(press_target: Option<ElementId>, hit: Option<ElementId>, past_slop: bool) -> (r: Option<ElementId>)
    ensures
        r == (if press_target is Some && hit == press_target && !past_slop {
            press_target
        } else {
            None
        }),
{
    match (press_target, hit) {
        (Some(target), Some(id)) => {
            if id == target && !past_slop {
                Some(id)
            } else {
                None
            }
        },
        _ => None,
    }
}

/// Whether a click by a button of `role` is delivered as a primary or a
/// secondary click; middle and other buttons are not delivered.
pub fn click_role_delivered(role: ButtonRole) -> (r: bool)
    ensures
        r == (role == ButtonRole::Primary || role == ButtonRole::Secondary),
{
    match role {
        ButtonRole::Primary => true,
        ButtonRole::Secondary => true,
        ButtonRole::Middle => false,
        ButtonRole::Other => false,
    }
}

} // verus!
