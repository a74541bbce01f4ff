//! Handler dispatch: direct, and bubbling up the parent chain until a
//! handler consumes the interaction.
use std::collections::HashMap;

use fynix::element::{ChildLists, ElementId, Elements};
use fynix::interaction::Response;
use fynix::style::Styles;

#[derive(Clone, Copy)]
struct Click;

#[derive(Default)]
struct World {
    clicks: u32,
}

type Handler = fn(Click, &mut Response<'_, World>);

#[derive(Default)]
struct Ui {
    elements: Option<Elements>,
    styles: Option<Styles>,
    kids: Option<ChildLists>,
    handlers: HashMap<u64, Handler>,
}

impl Ui {
    fn new() -> Ui {
        Ui {
            elements: Some(Elements::new()),
            styles: Some(Styles::new()),
            kids: Some(ChildLists::new()),
            handlers: HashMap::new(),
        }
    }

    fn elements(&mut self) -> &mut Elements {
        self.elements.as_mut().unwrap()
    }

    fn add(&mut self, children: Vec<ElementId>) -> ElementId {
        let id = self.elements().add(&children, None);
        self.kids.as_mut().unwrap().set_children(id, children);
        id
    }

    fn on(&mut self, id: ElementId, handler: Handler) {
        self.handlers.insert(id.to_key(), handler);
    }

    fn dispatch(&mut self, id: &ElementId, click: Click, world: &mut World) -> bool {
        if !self.elements().contains(id) {
            return false;
        }
        let Some(handler) = self.handlers.get(&id.to_key()) else {
            return false;
        };
        handler(click, &mut Response::new(world));
        true
    }

    fn dispatch_bubbling(
        &mut self,
        start: &ElementId,
        click: Click,
        world: &mut World,
        should_bubble: impl Fn(&ElementId) -> bool,
    ) -> bool {
        for id in self.elements().bubble_path(start) {
            if !should_bubble(&id) {
                break;
            }
            if let Some(handler) = self.handlers.get(&id.to_key()) {
                let mut response = Response::new(&mut *world);
                handler(click, &mut response);
                if response.consumed() {
                    return true;
                }
            }
        }
        false
    }

    fn remove_element(&mut self, id: &ElementId) -> bool {
        let mut removed = Vec::new();
        let existed = self.elements.as_mut().unwrap().remove(
            id,
            self.styles.as_mut().unwrap(),
            self.kids.as_ref().unwrap(),
            &mut removed,
        );
        for gone in removed {
            self.handlers.remove(&gone.to_key());
        }
        existed
    }
}

#[test]
fn dispatch_runs_attached_handler() {
    let mut world = World::default();
    let mut ui = Ui::new();
    let id = ui.add(Vec::new());
    ui.on(id, |_, res| res.clicks += 1);

    let ran = ui.dispatch(&id, Click, &mut world);

    assert!(ran);
    assert_eq!(world.clicks, 1);
}

#[test]
fn dispatch_without_handler_returns_false() {
    let mut world = World::default();
    let mut ui = Ui::new();
    let id = ui.add(Vec::new());

    let ran = ui.dispatch(&id, Click, &mut world);

    assert!(!ran);
}

#[test]
fn handlers_are_per_instance() {
    let mut world = World::default();
    let mut ui = Ui::new();
    let handled = ui.add(Vec::new());
    ui.on(handled, |_, res| res.clicks += 1);
    // A second instance with no handler.
    let plain = ui.add(Vec::new());

    assert!(ui.dispatch(&handled, Click, &mut world));
    assert!(!ui.dispatch(&plain, Click, &mut world));
    assert_eq!(world.clicks, 1);
}

#[test]
fn removing_element_drops_handlers() {
    let mut world = World::default();
    let mut ui = Ui::new();
    let id = ui.add(Vec::new());
    ui.on(id, |_, res| res.clicks += 1);

    assert!(ui.remove_element(&id));
    assert!(!ui.dispatch(&id, Click, &mut world));
}

#[test]
fn bubbling_reaches_ancestor_handler() {
    let mut world = World::default();
    let mut ui = Ui::new();
    // The child carries no handler; adding the container sets the
    // child's parent to the container.
    let child = ui.add(Vec::new());
    let parent = ui.add(vec![child]);
    ui.on(parent, |_, res| res.clicks += 1);

    // Bubbling from the child skips it and reaches the parent.
    assert!(ui.dispatch_bubbling(&child, Click, &mut world, |_| true));
    assert_eq!(world.clicks, 1);
    // Direct dispatch to the child still finds no handler.
    assert!(!ui.dispatch(&child, Click, &mut world));
}

#[test]
fn bubbling_stops_when_gate_returns_false() {
    let mut world = World::default();
    let mut ui = Ui::new();
    let child = ui.add(Vec::new());
    let parent = ui.add(vec![child]);
    ui.on(parent, |_, res| res.clicks += 1);

    // `should_bubble` turns down the start element, so the parent's
    // handler is never reached.
    assert!(!ui.dispatch_bubbling(&child, Click, &mut world, |_| false));
    assert_eq!(world.clicks, 0);
}

#[test]
fn bubbling_continues_past_declined_handler() {
    let mut world = World::default();
    let mut ui = Ui::new();
    // Child handles the click but lets it propagate, so bubbling
    // continues to the parent.
    let child = ui.add(Vec::new());
    ui.on(child, |_, res| {
        res.clicks += 1;
        res.propagate();
    });
    let parent = ui.add(vec![child]);
    ui.on(parent, |_, res| res.clicks += 1);

    // Both the child (propagates) and the parent (consumes) run.
    assert!(ui.dispatch_bubbling(&child, Click, &mut world, |_| true));
    assert_eq!(world.clicks, 2);
}
