//! The in-memory backend of the doc examples.
use fynix::host::{once, FynixHost, World, WritePadding, WriteSize, WriteText};

#[test]
fn with_root_holds_only_the_root() {
    let (world, root) = World::with_root();
    assert_eq!(root, 0);
    assert!(FynixHost::node_exists(&world, root));
    assert!(!FynixHost::node_exists(&world, 1));
    let node = world.get(root);
    assert_eq!(node.text, "");
    assert_eq!(node.size, 0);
    assert_eq!(node.padding, 0);
}

#[test]
fn spawned_nodes_are_children_in_id_order() {
    let (mut world, root) = World::with_root();
    let a = FynixHost::spawn(&mut world, root);
    let b = FynixHost::spawn(&mut world, root);
    let c = FynixHost::spawn(&mut world, a);
    assert_eq!((a, b, c), (1, 2, 3));
    assert_eq!(FynixHost::children(&world, root), vec![1, 2]);
    assert_eq!(FynixHost::children(&world, a), vec![3]);
    assert!(FynixHost::children(&world, c).is_empty());
}

#[test]
fn despawn_removes_the_whole_subtree() {
    let (mut world, root) = World::with_root();
    let a = FynixHost::spawn(&mut world, root);
    let b = FynixHost::spawn(&mut world, root);
    let c = FynixHost::spawn(&mut world, a);
    let d = FynixHost::spawn(&mut world, c);
    FynixHost::despawn(&mut world, a);
    for gone in [a, c, d] {
        assert!(!FynixHost::node_exists(&world, gone));
    }
    assert!(FynixHost::node_exists(&world, root));
    assert!(FynixHost::node_exists(&world, b));
    assert_eq!(FynixHost::children(&world, root), vec![b]);
    // Ids are never reused.
    assert_eq!(FynixHost::spawn(&mut world, root), 5);
}

#[test]
fn patches_write_one_field() {
    let (mut world, root) = World::with_root();
    let label = FynixHost::spawn(&mut world, root);
    WriteText::patch(&mut world, label, &String::from("Label"));
    WriteSize::patch(&mut world, label, &13);
    WritePadding::patch(&mut world, label, &4);
    let node = world.get(label);
    assert_eq!(node.text, "Label");
    assert_eq!(node.size, 13);
    assert_eq!(node.padding, 4);
    assert_eq!(world.get(root).text, "");
    world.node(label).size = 20;
    assert_eq!(world.get(label).size, 20);
}

#[test]
fn once_fires_on_the_first_flush_only() {
    let mut flag = once();
    assert!(flag.fire());
    assert!(!flag.fire());
    assert!(!flag.fire());
}

#[test]
fn delta_reads_the_world() {
    let (mut world, _) = World::with_root();
    assert_eq!(FynixHost::delta(&world), std::time::Duration::ZERO);
    world.delta = std::time::Duration::from_millis(16);
    assert_eq!(FynixHost::delta(&world), std::time::Duration::from_millis(16));
}
