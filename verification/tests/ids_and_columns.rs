//! Generational ids, column bookkeeping, overlay placement decisions
//! and handler responses.
use fynix::columns::ColumnSlots;
use fynix::id::{GenId, IdGenerator};
use fynix::interaction::{bubble_step, BubbleStep, Propagation, Response};
use fynix::overlay::{anchor_placement, flips_within_viewport, overlay_extends_size, Align, AnchorPlacement, Side};
use fynix::style::TypeKey;

#[test]
fn ids_are_fresh_until_recycled() {
    let mut ids = IdGenerator::new();
    let a = ids.new_id();
    let b = ids.new_id();
    assert_eq!((a.index(), a.generation()), (0, 0));
    assert_eq!((b.index(), b.generation()), (1, 0));
    ids.recycle(a);
    let c = ids.new_id();
    // The slot comes back with the next generation.
    assert_eq!((c.index(), c.generation()), (0, 1));
    assert_ne!(c, a);
    let d = ids.new_id();
    assert_eq!((d.index(), d.generation()), (2, 0));
}

#[test]
fn bits_round_trip() {
    let id = GenId::from_raw(7, 3);
    assert_eq!(id.to_bits(), (7u64 << 32) | 3);
    assert_eq!(GenId::from_bits(id.to_bits()), id);
    assert_eq!(id.next_generation().generation(), 4);
    assert_eq!(GenId::from_raw(7, u32::MAX).next_generation().generation(), 0);
    assert_eq!(GenId::placeholder().index(), u32::MAX);
}

#[test]
fn columns_are_numbered_in_first_use_order_and_stay() {
    let mut slots = ColumnSlots::new();
    assert!(slots.type_column(TypeKey(10)).is_none());
    let (a, new_a) = slots.ensure_column(TypeKey(10));
    let (b, new_b) = slots.ensure_column(TypeKey(20));
    let (a2, new_a2) = slots.ensure_column(TypeKey(10));
    assert_eq!((a.index(), new_a), (0, true));
    assert_eq!((b.index(), new_b), (1, true));
    assert_eq!((a2.index(), new_a2), (0, false));
    assert_eq!(slots.type_column(TypeKey(20)).map(|c| c.index()), Some(1));
}

#[test]
fn sides_flip_and_pick_the_cross_alignment() {
    assert_eq!(Side::default(), Side::Bottom);
    assert_eq!(Align::default(), Align::Center);
    assert_eq!(Side::Bottom.opposite(), Side::Top);
    assert_eq!(Side::Left.opposite(), Side::Right);
    assert_eq!(Side::Right.opposite().opposite(), Side::Right);
    assert_eq!(Side::Top.cross_align(Align::Start, Align::End), Align::Start);
    assert_eq!(Side::Left.cross_align(Align::Start, Align::End), Align::End);
}

#[test]
fn overlay_keeps_its_side_when_it_fits_and_flips_when_that_fits() {
    assert_eq!(anchor_placement(false, true, true), AnchorPlacement::Primary);
    assert_eq!(anchor_placement(true, false, true), AnchorPlacement::Primary);
    assert_eq!(anchor_placement(true, true, false), AnchorPlacement::FlippedClamped);
    assert_eq!(anchor_placement(true, true, true), AnchorPlacement::PrimaryClamped);
    assert!(flips_within_viewport(true, true));
    assert!(!flips_within_viewport(true, false));
    assert!(overlay_extends_size(false, false));
    assert!(!overlay_extends_size(true, false));
    assert!(!overlay_extends_size(false, true));
}

#[test]
fn responses_consume_unless_told_to_propagate() {
    let mut world = 5u32;
    let mut r = Response::new(&mut world);
    assert!(r.consumed());
    *r.world += 1;
    r.propagate();
    assert!(!r.consumed());
    assert_eq!(world, 6);
    assert_eq!(Propagation::default(), Propagation::Stop);
}

#[test]
fn bubbling_stops_at_refusal_or_consumption() {
    assert_eq!(bubble_step(false, Some(Propagation::Stop)), BubbleStep::Stop);
    assert_eq!(bubble_step(true, Some(Propagation::Stop)), BubbleStep::Consumed);
    assert_eq!(bubble_step(true, Some(Propagation::Continue)), BubbleStep::Next);
    assert_eq!(bubble_step(true, None), BubbleStep::Next);
}

#[test]
fn a_walk_stops_at_the_first_refusal() {
    let steps: Vec<BubbleStep> = [(true, None), (true, Some(Propagation::Continue)), (false, Some(Propagation::Stop))]
        .iter()
        .map(|&(a, h)| bubble_step(a, h))
        .collect();
    assert_eq!(steps, vec![BubbleStep::Next, BubbleStep::Next, BubbleStep::Stop]);
}
