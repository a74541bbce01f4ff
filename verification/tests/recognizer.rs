//! Click and hover recognition for the mouse pointer, driven the way a
//! backend drives it: hit-test each position, feed the result in, and
//! deliver what comes back.
use fynix::element::{ElementId, Elements};
use fynix::presses::{click_target, PointerButton, PointerId, PressRecognizer};

/// A single tile at `(10, 10)` sized `100 x 50`.
struct Scene {
    tile: ElementId,
}

impl Scene {
    fn new() -> Scene {
        let mut elements = Elements::new();
        let tile = elements.add(&Vec::new(), None);
        Scene { tile }
    }

    fn query(&self, x: f64, y: f64) -> Option<ElementId> {
        if x >= 10.0 && x <= 110.0 && y >= 10.0 && y <= 60.0 {
            Some(self.tile)
        } else {
            None
        }
    }
}

const CLICK_SLOP: f64 = 10.0;

fn past_slop(from: (f64, f64), x: f64, y: f64) -> bool {
    let dx = x - from.0;
    let dy = y - from.1;
    dx * dx + dy * dy > CLICK_SLOP * CLICK_SLOP
}

type Rec = PressRecognizer<PointerId, PointerButton, (f64, f64)>;

fn down(rec: &mut Rec, scene: &Scene, x: f64, y: f64) {
    rec.pointer_down(PointerId::mouse(), PointerButton::Primary, (x, y), scene.query(x, y));
}

/// Releases the primary mouse button at `(x, y)`; the element clicked,
/// if any.
fn up(rec: &mut Rec, scene: &Scene, x: f64, y: f64) -> Option<ElementId> {
    let press = rec.take_press(PointerId::mouse(), PointerButton::Primary)?;
    click_target(press.target, scene.query(x, y), past_slop(press.pos, x, y))
}

#[test]
fn recognizer_press_and_release_inside_dispatches_click() {
    let scene = Scene::new();
    let mut rec = Rec::new();
    let mut clicks = 0;

    down(&mut rec, &scene, 20.0, 20.0);
    if up(&mut rec, &scene, 25.0, 25.0).is_some() {
        clicks += 1;
    }

    assert_eq!(clicks, 1);
}

#[test]
fn recognizer_release_outside_element_does_not_click() {
    let scene = Scene::new();
    let mut rec = Rec::new();
    let mut clicks = 0;

    down(&mut rec, &scene, 20.0, 20.0);
    // (200, 200) misses the tile entirely.
    if up(&mut rec, &scene, 200.0, 200.0).is_some() {
        clicks += 1;
    }

    assert_eq!(clicks, 0);
}

#[test]
fn recognizer_drag_past_slop_does_not_click() {
    let scene = Scene::new();
    let mut rec = Rec::new();
    let mut clicks = 0;

    down(&mut rec, &scene, 20.0, 20.0);
    // Still inside the tile, but 12px away (> CLICK_SLOP).
    if up(&mut rec, &scene, 32.0, 20.0).is_some() {
        clicks += 1;
    }

    assert_eq!(clicks, 0);
}

#[test]
fn recognizer_press_outside_then_release_inside_does_not_click() {
    let scene = Scene::new();
    let mut rec = Rec::new();
    let mut clicks = 0;

    // Press misses everything, so there is no target.
    down(&mut rec, &scene, 200.0, 200.0);
    if up(&mut rec, &scene, 20.0, 20.0).is_some() {
        clicks += 1;
    }

    assert_eq!(clicks, 0);
}

#[test]
fn recognizer_pointer_move_emits_enter_then_leave() {
    let scene = Scene::new();
    let mut rec = Rec::new();
    let mut entered = 0;
    let mut left = 0;
    let mut moved = |rec: &mut Rec, x: f64, y: f64| {
        if let Some(change) = rec.pointer_moved(scene.query(x, y)) {
            if change.left.is_some() {
                left += 1;
            }
            if change.entered.is_some() {
                entered += 1;
            }
        }
        (entered, left)
    };

    // Move onto the tile: one enter, no leave.
    assert_eq!(moved(&mut rec, 20.0, 20.0), (1, 0));

    // Move within the tile: no further enter/leave.
    assert_eq!(moved(&mut rec, 30.0, 30.0).0, 1);

    // Move off the tile: one leave.
    assert_eq!(moved(&mut rec, 200.0, 200.0).1, 1);
}

#[test]
fn take_press_hands_back_the_matching_press_only() {
    let scene = Scene::new();
    let mut rec = Rec::new();
    let touch = PointerId(7);
    rec.pointer_down(PointerId::mouse(), PointerButton::Secondary, (1.0, 2.0), None);
    rec.pointer_down(touch, PointerButton::Primary, (20.0, 20.0), scene.query(20.0, 20.0));

    assert!(rec.take_press(PointerId::mouse(), PointerButton::Primary).is_none());
    let press = rec.take_press(touch, PointerButton::Primary).unwrap();
    assert_eq!(press.pos, (20.0, 20.0));
    assert_eq!(press.target, Some(scene.tile));
    assert!(rec.take_press(touch, PointerButton::Primary).is_none());
    let other = rec.take_press(PointerId::mouse(), PointerButton::Secondary).unwrap();
    assert_eq!(other.pos, (1.0, 2.0));
}

#[test]
fn other_buttons_compare_by_code() {
    assert!(PointerButton::Other(3) == PointerButton::Other(3));
    assert!(PointerButton::Other(3) != PointerButton::Other(4));
    assert!(PointerButton::Primary != PointerButton::Secondary);
    assert_eq!(PointerId::mouse(), PointerId(0));
}
