//! The per-pointer gesture machine: press, drag, click and hover.
use fynix::element::{ElementId, Elements};
use fynix::gesture::{ButtonRole, Hit, MoveAction, PointerState, UpAction};

fn two_elements() -> (ElementId, ElementId) {
    let mut elements = Elements::new();
    let a = elements.add(&Vec::new(), None);
    let b = elements.add(&Vec::new(), None);
    (a, b)
}

fn hit(id: ElementId, local: (i32, i32)) -> Option<Hit<(i32, i32)>> {
    Some(Hit { id, local })
}

#[test]
fn press_and_release_on_target_clicks_with_role() {
    let (a, _) = two_elements();
    let mut s = PointerState::new();
    s.down(ButtonRole::Secondary, (5, 5), hit(a, (1, 1)));
    match s.up(hit(a, (2, 3)), true) {
        UpAction::Click { target, local, role } => {
            assert_eq!(target, a);
            assert_eq!(local, (2, 3));
            assert_eq!(role, ButtonRole::Secondary);
        },
        _ => panic!("expected a click"),
    }
    assert!(s.press().is_none());
    assert_eq!(s.hovering, Some(a));
}

#[test]
fn release_on_another_element_does_not_click() {
    let (a, b) = two_elements();
    let mut s = PointerState::new();
    s.down(ButtonRole::Primary, (5, 5), hit(a, (1, 1)));
    assert!(matches!(s.up(hit(b, (0, 0)), true), UpAction::Nothing));
    assert_eq!(s.hovering, Some(b));
}

#[test]
fn release_past_slop_does_not_click() {
    let (a, _) = two_elements();
    let mut s = PointerState::new();
    s.down(ButtonRole::Primary, (5, 5), hit(a, (1, 1)));
    assert!(matches!(s.up(hit(a, (9, 9)), false), UpAction::Nothing));
}

#[test]
fn press_on_nothing_starts_no_press() {
    let mut s: PointerState<(i32, i32)> = PointerState::new();
    s.down(ButtonRole::Primary, (5, 5), None);
    assert!(s.press().is_none());
    assert!(matches!(s.up(None, true), UpAction::Nothing));
}

#[test]
fn drag_starts_past_threshold_and_suppresses_the_click() {
    let (a, _) = two_elements();
    let mut s = PointerState::new();
    s.down(ButtonRole::Primary, (0, 0), hit(a, (4, 4)));

    assert!(matches!(s.moved((1, 0), hit(a, (5, 4)), false), MoveAction::Nothing));
    match s.moved((20, 0), hit(a, (24, 4)), true) {
        MoveAction::DragStart { target, start, local } => {
            assert_eq!(target, a);
            assert_eq!(start, (0, 0));
            assert_eq!(local, (4, 4));
        },
        _ => panic!("expected a drag start"),
    }
    match s.moved((30, 0), None, false) {
        MoveAction::Drag { target, press_local, press_global, previous } => {
            assert_eq!(target, a);
            assert_eq!(press_local, (4, 4));
            assert_eq!(press_global, (0, 0));
            assert_eq!(previous, (20, 0));
        },
        _ => panic!("expected a drag step"),
    }
    match s.up(hit(a, (4, 4)), true) {
        UpAction::DragEnd { target, .. } => assert_eq!(target, a),
        _ => panic!("a drag ends instead of clicking"),
    }
}

#[test]
fn hover_reports_enter_and_leave_once() {
    let (a, b) = two_elements();
    let mut s = PointerState::new();
    match s.moved((1, 1), hit(a, (1, 1)), false) {
        MoveAction::Hover { leave, enter, hover } => {
            assert_eq!(leave, None);
            assert_eq!(enter.map(|h| h.id), Some(a));
            assert_eq!(hover.map(|h| h.id), Some(a));
        },
        _ => panic!("expected hover"),
    }
    match s.moved((2, 2), hit(a, (2, 2)), false) {
        MoveAction::Hover { leave, enter, .. } => {
            assert_eq!(leave, None);
            assert!(enter.is_none());
        },
        _ => panic!("expected hover"),
    }
    match s.moved((50, 50), hit(b, (0, 0)), false) {
        MoveAction::Hover { leave, enter, .. } => {
            assert_eq!(leave, Some(a));
            assert_eq!(enter.map(|h| h.id), Some(b));
        },
        _ => panic!("expected hover"),
    }
}

#[test]
fn cancel_ends_a_drag_and_drops_a_press() {
    let (a, _) = two_elements();
    let mut s = PointerState::new();
    s.down(ButtonRole::Primary, (0, 0), hit(a, (0, 0)));
    assert!(s.cancel().is_none());
    assert!(s.press().is_none());

    s.down(ButtonRole::Primary, (0, 0), hit(a, (0, 0)));
    s.moved((15, 0), hit(a, (15, 0)), true);
    let ended = s.cancel().unwrap();
    assert_eq!(ended.target, a);
    assert_eq!(ended.last_global, (15, 0));
    assert!(s.press().is_none());
}
