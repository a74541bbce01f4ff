//! The committed style tree: removal takes the whole subtree and frees
//! the slot on the parent.
use fynix::style::{FieldKey, Styles, TypeKey};

fn commit(styles: &mut Styles, parent: Option<fynix::style::StyleId>) -> fynix::style::StyleId {
    styles.set(TypeKey(1), FieldKey(1));
    let id = styles.current_id();
    styles.commit_styles(parent);
    id
}

#[test]
fn removing_a_style_frees_its_slot_on_the_parent() {
    let mut styles = Styles::new();
    let a = commit(&mut styles, None);
    let b = commit(&mut styles, Some(a));
    assert_eq!(styles.get(&a).unwrap().children(), [Some(b), None]);

    assert!(styles.remove(&b));
    assert_eq!(styles.get(&a).unwrap().children(), [None, None]);

    // The freed slot takes the next child, which then goes with the parent.
    let c = commit(&mut styles, Some(a));
    let d = commit(&mut styles, Some(a));
    let e = commit(&mut styles, Some(a));
    assert_eq!(styles.get(&a).unwrap().children(), [Some(c), Some(d)]);
    assert_eq!(styles.len(), 4);
    assert!(styles.remove(&a));
    assert!(styles.get(&c).is_none() && styles.get(&d).is_none());
    // `e` found no free slot, so it was never linked under `a`.
    assert!(styles.get(&e).is_some());
    assert_eq!(styles.len(), 1);
    assert!(!styles.remove(&a));
}

#[test]
fn removing_a_style_takes_its_whole_subtree() {
    let mut styles = Styles::new();
    let a = commit(&mut styles, None);
    let b = commit(&mut styles, Some(a));
    let c = commit(&mut styles, Some(b));
    let other = commit(&mut styles, None);
    assert!(styles.remove(&a));
    assert!(styles.get(&a).is_none() && styles.get(&b).is_none() && styles.get(&c).is_none());
    assert!(styles.get(&other).is_some());
    assert_eq!(styles.len(), 1);
}

#[test]
fn removed_style_ids_come_back_with_a_new_generation() {
    let mut styles = Styles::new();
    let a = commit(&mut styles, None);
    let b = commit(&mut styles, Some(a));
    let c = commit(&mut styles, Some(b));
    assert!(styles.remove(&b));
    // The open id was handed out before the removal; the one after it
    // reuses the slot recycled last, that of `c`, then that of `b`.
    let open = commit(&mut styles, None);
    assert!(open != b && open != c);
    let first = styles.current_id().as_gen_id();
    assert_eq!(first.index(), c.as_gen_id().index());
    assert_eq!(first.generation(), c.as_gen_id().generation() + 1);
    styles.commit_styles(None);
    let second = styles.current_id().as_gen_id();
    assert_eq!(second.index(), b.as_gen_id().index());
    assert_eq!(second.generation(), b.as_gen_id().generation() + 1);
}

#[test]
fn removing_an_absent_style_changes_nothing() {
    let mut styles = Styles::new();
    let a = commit(&mut styles, None);
    assert!(styles.remove(&a));
    let open = styles.current_id();
    assert!(!styles.remove(&a));
    assert_eq!(styles.current_id(), open);
    assert_eq!(styles.len(), 0);
}
