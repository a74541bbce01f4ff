//! The generic press recognizer: any comparable pointer id, and a button
//! type the backend classifies into a role.
use fynix::element::{ElementId, Elements};
use fynix::gesture::ButtonRole;
use fynix::presses::{click_role_delivered, click_target, ClassifyButton, PressRecognizer};

/// A test button whose role is whatever it is constructed with.
#[derive(Clone, Copy, PartialEq, Eq)]
struct Btn(ButtonRole);

impl ClassifyButton for Btn {
    fn role(self) -> ButtonRole {
        self.0
    }
}

const PRIMARY: Btn = Btn(ButtonRole::Primary);
const SECONDARY: Btn = Btn(ButtonRole::Secondary);

type Rec = PressRecognizer<u64, Btn, (f64, f64)>;

fn tile() -> ElementId {
    let mut elements = Elements::new();
    elements.add(&Vec::new(), None)
}

/// The tile at `(10, 10)` sized `100 x 50`.
fn query(tile: ElementId, pos: (f64, f64)) -> Option<ElementId> {
    if pos.0 >= 10.0 && pos.0 <= 110.0 && pos.1 >= 10.0 && pos.1 <= 60.0 {
        Some(tile)
    } else {
        None
    }
}

fn past_slop(from: (f64, f64), to: (f64, f64)) -> bool {
    let dx = to.0 - from.0;
    let dy = to.1 - from.1;
    dx * dx + dy * dy > 10.0 * 10.0
}

#[derive(Default)]
struct Delivered {
    clicks: usize,
    secondary_clicks: usize,
    entered: usize,
    left: usize,
}

fn pointer_down(rec: &mut Rec, tile: ElementId, pointer: u64, button: Btn, pos: (f64, f64)) {
    rec.pointer_down(pointer, button, pos, query(tile, pos));
}

fn pointer_up(rec: &mut Rec, out: &mut Delivered, tile: ElementId, pointer: u64, button: Btn, pos: (f64, f64)) {
    let Some(press) = rec.take_press(pointer, button) else {
        return;
    };
    if click_target(press.target, query(tile, pos), past_slop(press.pos, pos)).is_none() {
        return;
    }
    let role = button.role();
    if click_role_delivered(role) {
        match role {
            ButtonRole::Primary => out.clicks += 1,
            _ => out.secondary_clicks += 1,
        }
    }
}

fn pointer_moved(rec: &mut Rec, out: &mut Delivered, tile: ElementId, pos: (f64, f64)) {
    if let Some(change) = rec.pointer_moved(query(tile, pos)) {
        if change.left.is_some() {
            out.left += 1;
        }
        if change.entered.is_some() {
            out.entered += 1;
        }
    }
}

fn cancel(rec: &mut Rec, out: &mut Delivered, pointer: u64) {
    if rec.cancel(pointer).is_some() {
        out.left += 1;
    }
}

#[test]
fn pointer_press_and_release_inside_dispatches_click() {
    let tile = tile();
    let mut rec = Rec::new();
    let mut out = Delivered::default();

    pointer_down(&mut rec, tile, 0, PRIMARY, (20.0, 20.0));
    pointer_up(&mut rec, &mut out, tile, 0, PRIMARY, (25.0, 25.0));

    assert_eq!(out.clicks, 1);
}

#[test]
fn secondary_button_dispatches_secondary_click() {
    let tile = tile();
    let mut rec = Rec::new();
    let mut out = Delivered::default();

    pointer_down(&mut rec, tile, 0, SECONDARY, (20.0, 20.0));
    pointer_up(&mut rec, &mut out, tile, 0, SECONDARY, (25.0, 25.0));

    assert_eq!(out.clicks, 0);
    assert_eq!(out.secondary_clicks, 1);
}

#[test]
fn pointer_release_outside_element_does_not_click() {
    let tile = tile();
    let mut rec = Rec::new();
    let mut out = Delivered::default();

    pointer_down(&mut rec, tile, 0, PRIMARY, (20.0, 20.0));
    // (200, 200) misses the tile entirely.
    pointer_up(&mut rec, &mut out, tile, 0, PRIMARY, (200.0, 200.0));

    assert_eq!(out.clicks, 0);
}

#[test]
fn pointer_drag_past_slop_does_not_click() {
    let tile = tile();
    let mut rec = Rec::new();
    let mut out = Delivered::default();

    pointer_down(&mut rec, tile, 0, PRIMARY, (20.0, 20.0));
    // Still inside the tile, but 12px away (> CLICK_SLOP).
    pointer_up(&mut rec, &mut out, tile, 0, PRIMARY, (32.0, 20.0));

    assert_eq!(out.clicks, 0);
}

#[test]
fn pointer_press_outside_then_release_inside_does_not_click() {
    let tile = tile();
    let mut rec = Rec::new();
    let mut out = Delivered::default();

    // Press misses everything, so there is no target.
    pointer_down(&mut rec, tile, 0, PRIMARY, (200.0, 200.0));
    pointer_up(&mut rec, &mut out, tile, 0, PRIMARY, (20.0, 20.0));

    assert_eq!(out.clicks, 0);
}

#[test]
fn cancel_drops_pending_press() {
    let tile = tile();
    let mut rec = Rec::new();
    let mut out = Delivered::default();

    pointer_down(&mut rec, tile, 0, PRIMARY, (20.0, 20.0));
    cancel(&mut rec, &mut out, 0);
    pointer_up(&mut rec, &mut out, tile, 0, PRIMARY, (25.0, 25.0));

    assert_eq!(out.clicks, 0);
}

#[test]
fn cancel_emits_leave_for_hovered() {
    let tile = tile();
    let mut rec = Rec::new();
    let mut out = Delivered::default();

    // Hover onto the tile, then cancel: the hover must be undone with
    // a leave even though the pointer never moved off.
    pointer_moved(&mut rec, &mut out, tile, (20.0, 20.0));
    assert_eq!(out.entered, 1);
    assert_eq!(out.left, 0);

    cancel(&mut rec, &mut out, 0);
    assert_eq!(out.left, 1);
}

#[test]
fn pointer_pointer_move_emits_enter_then_leave() {
    let tile = tile();
    let mut rec = Rec::new();
    let mut out = Delivered::default();

    // Move onto the tile: one enter, no leave.
    pointer_moved(&mut rec, &mut out, tile, (20.0, 20.0));
    assert_eq!(out.entered, 1);
    assert_eq!(out.left, 0);

    // Move within the tile: no further enter/leave.
    pointer_moved(&mut rec, &mut out, tile, (30.0, 30.0));
    assert_eq!(out.entered, 1);

    // Move off the tile: one leave.
    pointer_moved(&mut rec, &mut out, tile, (200.0, 200.0));
    assert_eq!(out.left, 1);
}

#[test]
fn cancel_keeps_presses_of_other_pointers() {
    let tile = tile();
    let mut rec = Rec::new();
    let mut out = Delivered::default();

    pointer_down(&mut rec, tile, 1, PRIMARY, (20.0, 20.0));
    pointer_down(&mut rec, tile, 2, PRIMARY, (30.0, 30.0));
    cancel(&mut rec, &mut out, 1);
    pointer_up(&mut rec, &mut out, tile, 1, PRIMARY, (20.0, 20.0));
    assert_eq!(out.clicks, 0);
    pointer_up(&mut rec, &mut out, tile, 2, PRIMARY, (30.0, 30.0));
    assert_eq!(out.clicks, 1);
}

#[test]
fn middle_and_other_buttons_are_not_delivered() {
    assert!(click_role_delivered(ButtonRole::Primary));
    assert!(click_role_delivered(ButtonRole::Secondary));
    assert!(!click_role_delivered(ButtonRole::Middle));
    assert!(!click_role_delivered(ButtonRole::Other));
}
