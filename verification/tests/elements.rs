//! Element bookkeeping: parents, dirty marks and subtree removal.
use fynix::element::{ChildLists, ElementId, Elements};
use fynix::id::GenId;
use fynix::style::Styles;

#[test]
fn new_elements_are_dirty_until_taken() {
    let mut elements = Elements::new();
    let a = elements.add(&Vec::new(), None);
    let b = elements.add(&vec![a], None);
    let mut dirty = elements.take_dirty();
    dirty.sort_by_key(|id| id.to_key());
    let mut expected = vec![a, b];
    expected.sort_by_key(|id| id.to_key());
    assert_eq!(dirty, expected);
    assert!(elements.take_dirty().is_empty());

    assert!(elements.mark_dirty(a));
    assert!(!elements.mark_dirty(a));
    assert_eq!(elements.take_dirty(), vec![a]);
}

#[test]
fn removed_elements_are_not_handed_out_as_dirty() {
    let mut elements = Elements::new();
    let mut styles = Styles::new();
    let kids = ChildLists::new();
    let a = elements.add(&Vec::new(), None);
    let mut removed = Vec::new();
    assert!(elements.remove(&a, &mut styles, &kids, &mut removed));
    assert_eq!(removed, vec![a]);
    assert!(elements.take_dirty().is_empty());
}

#[test]
fn children_get_their_parent_and_ids_come_back_with_a_new_generation() {
    let mut elements = Elements::new();
    let mut styles = Styles::new();
    let mut kids = ChildLists::new();
    let leaf = elements.add(&Vec::new(), None);
    let root = elements.add(&vec![leaf], None);
    kids.set_children(root, vec![leaf]);
    assert_eq!(elements.parent(&leaf), Some(root));
    assert_eq!(elements.parent(&root), None);
    assert_eq!(kids.children_of(&root), vec![leaf]);

    let mut removed = Vec::new();
    assert!(elements.remove(&root, &mut styles, &kids, &mut removed));
    assert_eq!(removed, vec![root, leaf]);
    assert_eq!(elements.len(), 0);

    let again = elements.add(&Vec::new(), None);
    assert!(again != leaf && again != root);
    assert!(elements.contains(&again));
    assert!(!elements.contains(&leaf));

    kids.forget(&root);
    assert!(kids.children_of(&root).is_empty());
    assert_eq!(ElementId::from_key(again.to_key()), again);
}

#[test]
fn render_order_is_depth_first_in_child_order() {
    let mut elements = Elements::new();
    let mut kids = ChildLists::new();
    let c = elements.add(&Vec::new(), None);
    let a = elements.add(&vec![c], None);
    let b = elements.add(&Vec::new(), None);
    let root = elements.add(&vec![a, b], None);
    kids.set_children(a, vec![c]);
    kids.set_children(root, vec![a, b]);

    assert_eq!(elements.render_order(&root, &kids), vec![root, a, c, b]);
    assert_eq!(elements.render_order(&a, &kids), vec![a, c]);

    // A child that is no longer present is skipped with its subtree.
    let mut styles = Styles::new();
    let mut removed = Vec::new();
    elements.remove(&c, &mut styles, &kids, &mut removed);
    assert_eq!(elements.render_order(&root, &kids), vec![root, a, b]);
    assert!(elements.render_order(&c, &kids).is_empty());
}

fn a_style() -> fynix::style::StyleId {
    Styles::new().current_id()
}

#[test]
fn meta_init_seeds_node_and_primary_style() {
    let style = a_style();
    let mut elements = Elements::new();
    let id = elements.add(&Vec::new(), Some(style));

    assert!(elements.contains(&id));
    assert_eq!(elements.primary_style(&id), Some(style));
    assert_eq!(elements.parent(&id), None);
}

#[test]
fn meta_init_without_primary_style_leaves_it_absent() {
    let mut elements = Elements::new();
    let id = elements.add(&Vec::new(), None);

    assert!(elements.contains(&id));
    assert_eq!(elements.primary_style(&id), None);
}

#[test]
fn table_init_seeds_node_and_primary_style() {
    let style = a_style();
    let mut elements = Elements::new();
    let announced = elements.next_id();
    let id = elements.add(&Vec::new(), Some(style));

    assert_eq!(id, announced);
    assert!(elements.contains(&id));
    assert_eq!(elements.primary_style(&id), Some(style));
}

#[test]
fn table_init_without_primary_style_leaves_it_absent() {
    let mut elements = Elements::new();
    let id = elements.add(&Vec::new(), None);

    assert!(elements.contains(&id));
    assert_eq!(elements.primary_style(&id), None);
}

fn remove_drops_every_column() {
    let style = a_style();
    let mut elements = Elements::new();
    let mut styles = Styles::new();
    let kids = ChildLists::new();
    let id = elements.add(&Vec::new(), Some(style));
    let other = elements.add(&Vec::new(), None);

    let mut removed = Vec::new();
    assert!(elements.remove(&id, &mut styles, &kids, &mut removed));
    assert!(!elements.contains(&id));
    assert_eq!(elements.primary_style(&id), None);
    // A second removal finds nothing left.
    assert!(!elements.remove(&id, &mut styles, &kids, &mut removed));
    // Sibling metadata is untouched.
    assert!(elements.contains(&other));
}

#[test]
fn meta_remove_drops_every_column() {
    remove_drops_every_column();
}

#[test]
fn table_remove_drops_every_column() {
    remove_drops_every_column();
}

#[test]
fn next_id_announces_the_id_add_gives() {
    let mut elements = Elements::new();
    let mut styles = Styles::new();
    let kids = ChildLists::new();
    let a = elements.add(&Vec::new(), None);
    let mut removed = Vec::new();
    elements.remove(&a, &mut styles, &kids, &mut removed);
    let announced = elements.next_id();
    assert_eq!(elements.add(&Vec::new(), None), announced);
}

#[test]
fn a_failed_removal_changes_nothing() {
    let mut elements = Elements::new();
    let mut styles = Styles::new();
    let kids = ChildLists::new();
    let a = elements.add(&Vec::new(), None);
    let mut removed = Vec::new();
    assert!(elements.remove(&a, &mut styles, &kids, &mut removed));
    let announced = elements.next_id();
    assert!(!elements.remove(&a, &mut styles, &kids, &mut removed));
    assert_eq!(removed, vec![a]);
    assert_eq!(elements.next_id(), announced);
    assert_eq!(elements.len(), 0);
}

#[test]
fn removal_recycles_every_removed_id() {
    let mut elements = Elements::new();
    let mut styles = Styles::new();
    let mut kids = ChildLists::new();
    let leaf = elements.add(&Vec::new(), None);
    let root = elements.add(&vec![leaf], None);
    kids.set_children(root, vec![leaf]);
    let mut removed = Vec::new();
    assert!(elements.remove(&root, &mut styles, &kids, &mut removed));
    // The id recycled last, the leaf's, comes back first.
    let x = elements.add(&Vec::new(), None);
    let y = elements.add(&Vec::new(), None);
    let parts = |e: ElementId| {
        let g = GenId::from_bits(e.to_key());
        (g.index(), g.generation())
    };
    assert_eq!(parts(x), (parts(leaf).0, parts(leaf).1 + 1));
    assert_eq!(parts(y), (parts(root).0, parts(root).1 + 1));
}

#[test]
fn the_anchor_chain_runs_up_to_the_overlay() {
    let mut elements = Elements::new();
    let anchor = elements.add(&Vec::new(), None);
    let mid = elements.add(&vec![anchor], None);
    let overlay = elements.add(&vec![mid], None);
    assert_eq!(elements.anchor_chain(&anchor, &overlay), Some(vec![anchor, mid]));
    assert_eq!(elements.anchor_chain(&mid, &overlay), Some(vec![mid]));
    // The way up from the overlay, or past it, never reaches it.
    assert_eq!(elements.anchor_chain(&overlay, &anchor), None);
    assert_eq!(elements.anchor_chain(&anchor, &anchor), None);
}
