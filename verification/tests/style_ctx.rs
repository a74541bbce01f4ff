//! Building an element tree with style defaults, the way a build
//! context drives the library: `set` queues a default, each new element
//! commits what is queued and inherits the chain, and a nested scope
//! gives back the outer scope when it ends.
use std::collections::HashMap;

use fynix::element::{ChildLists, ElementId, Elements};
use fynix::scope::StyleScope;
use fynix::style::{FieldKey, Styles, TypeKey};

const LABEL: TypeKey = TypeKey(1);
const VERTICAL: TypeKey = TypeKey(2);
const LABEL_STYLE: TypeKey = TypeKey(3);
const TEXT: FieldKey = FieldKey(1);

struct Ui {
    styles: Styles,
    elements: Elements,
    scope: StyleScope,
    values: HashMap<(u64, u64), &'static str>,
    kids: ChildLists,
    texts: HashMap<u64, &'static str>,
}

impl Ui {
    fn new() -> Ui {
        Ui {
            styles: Styles::new(),
            elements: Elements::new(),
            scope: StyleScope::new(None),
            values: HashMap::new(),
            kids: ChildLists::new(),
            texts: HashMap::new(),
        }
    }

    /// Queues `text` as the default of the text field of `t`.
    fn set(&mut self, t: TypeKey, text: &'static str) {
        let at = self.styles.set(t, TEXT);
        self.values.insert((at.style.to_key(), at.field.0), text);
    }

    /// Commits what is queued and resolves the text an instance of `t`
    /// created now gets.
    fn create_styled(&mut self, t: TypeKey) -> &'static str {
        self.scope.commit_pending_styles(&mut self.styles);
        let mut text = "";
        for (field, style) in self.scope.resolve(&self.styles, t) {
            if field == TEXT {
                text = self.values[&(style.to_key(), field.0)];
            }
        }
        text
    }

    fn style_scoped<T>(&mut self, scope: impl FnOnce(&mut Ui) -> T) -> T {
        let saved = self.scope.enter();
        let result = scope(self);
        self.scope.exit(saved, &mut self.styles);
        result
    }

    fn add(&mut self, t: TypeKey) -> ElementId {
        let text = self.create_styled(t);
        let id = self.elements.add(&Vec::new(), None);
        self.texts.insert(id.to_key(), text);
        id
    }

    fn add_with(
        &mut self,
        t: TypeKey,
        scope: impl FnOnce(&mut &'static str, &mut Ui, &mut Vec<ElementId>),
    ) -> ElementId {
        let mut text = self.create_styled(t);
        let (id, children) = self.style_scoped(|ui| {
            let mut children = Vec::new();
            scope(&mut text, ui, &mut children);
            let primary = ui.scope.take_primary();
            (ui.elements.add(&children, primary), children)
        });
        self.kids.set_children(id, children);
        self.texts.insert(id.to_key(), text);
        id
    }

    /// A composer that builds a label from a label style.
    fn compose(&mut self, inline: impl FnOnce(&mut &'static str)) -> ElementId {
        let mut style_text = self.create_styled(LABEL_STYLE);
        inline(&mut style_text);
        self.style_scoped(|ui| ui.add_with(LABEL, |text, _, _| *text = style_text))
    }

    fn remove_element(&mut self, id: &ElementId) -> bool {
        let mut removed = Vec::new();
        self.elements.remove(id, &mut self.styles, &self.kids, &mut removed)
    }

    fn text(&self, id: &ElementId) -> &'static str {
        self.texts[&id.to_key()]
    }

    fn has_primary_style(&self, id: &ElementId) -> bool {
        self.elements.primary_style(id).is_some()
    }
}

#[test]
fn style_applied_after_set() {
    let mut ui = Ui::new();
    ui.set(LABEL, "hello");
    let mut label_id = ElementId::placeholder();
    ui.add_with(VERTICAL, |_, ui, v| {
        label_id = ui.add(LABEL);
        v.push(label_id);
    });

    assert_eq!(ui.text(&label_id), "hello");
}

#[test]
fn add_with_restores_parent_style_id() {
    let mut ui = Ui::new();
    ui.set(LABEL, "outer");
    let mut outer_label_id = ElementId::placeholder();
    ui.add_with(VERTICAL, |_, ui, v| {
        // Inner scope overrides the label text.
        let inner_id = ui.add_with(VERTICAL, |_, ui, v| {
            ui.set(LABEL, "inner");
            v.push(ui.add(LABEL));
        });

        // After the inner closure, "outer" style is restored.
        v.push(inner_id);
        outer_label_id = ui.add(LABEL);
        v.push(outer_label_id);
    });

    assert_eq!(ui.text(&outer_label_id), "outer");
}

#[test]
fn child_style_wins_over_parent() {
    let mut ui = Ui::new();
    ui.set(LABEL, "parent");
    let mut label_id = ElementId::placeholder();
    ui.add_with(VERTICAL, |_, ui, v| {
        ui.set(LABEL, "child");
        label_id = ui.add(LABEL);
        v.push(label_id);
    });

    assert_eq!(ui.text(&label_id), "child");
}

#[test]
fn style_tree_cleanup() {
    let mut ui = Ui::new();

    ui.set(LABEL, "z");
    let elem_a = ui.add(LABEL);

    let mut elem_c = ElementId::placeholder();
    let mut elem_d = ElementId::placeholder();
    let mut elem_e = ElementId::placeholder();
    let mut elem_f = ElementId::placeholder();
    let elem_b = ui.add_with(VERTICAL, |_, ui, v| {
        ui.set(LABEL, "a");
        elem_c = ui.add_with(VERTICAL, |_, ui, v| {
            ui.set(LABEL, "b");
            elem_d = ui.add_with(VERTICAL, |_, ui, v| {
                // Create an element without any prior style.
                v.push(ui.add(LABEL));

                ui.set(LABEL, "c");
                elem_e = ui.add_with(LABEL, |_, _, _| {});
                v.push(elem_e);

                ui.set(LABEL, "d");
                elem_f = ui.add(LABEL);
                v.push(elem_f);
            });
            v.push(elem_d);
        });
        v.push(elem_c);
    });

    let mut len = ui.styles.len();
    // Five styles [z, a, b, c, d].
    assert_eq!(len, 5);

    assert!(![elem_a, elem_e, elem_f].iter().any(|e| ui.has_primary_style(e)));
    assert!([elem_b, elem_c, elem_d].iter().all(|e| ui.has_primary_style(e)));

    // No styles removed.
    ui.remove_element(&elem_a);
    assert_eq!(ui.styles.len(), len);

    // No styles removed.
    ui.remove_element(&elem_f);
    assert_eq!(ui.styles.len(), len);

    // No styles removed.
    ui.remove_element(&elem_e);
    assert_eq!(ui.styles.len(), len);

    // [c, d] will be removed.
    ui.remove_element(&elem_d);
    len -= 2;
    assert_eq!(ui.styles.len(), len);

    // [b] will be removed.
    ui.remove_element(&elem_c);
    len -= 1;
    assert_eq!(ui.styles.len(), len);

    // [a] will be removed.
    ui.remove_element(&elem_b);
    len -= 1;
    assert_eq!(ui.styles.len(), len);

    // Only [z] remains.
    assert_eq!(len, 1);
}

#[test]
fn nested_style_tree_cleanup() {
    let mut ui = Ui::new();

    let mut elem_b = ElementId::placeholder();
    let elem_a = ui.add_with(VERTICAL, |_, ui, v| {
        let middle = ui.add_with(VERTICAL, |_, ui, v| {
            elem_b = ui.add_with(VERTICAL, |_, ui, v| {
                ui.set(LABEL, "a");
                v.push(ui.add(LABEL));
            });
            v.push(elem_b);
        });
        v.push(middle);
    });

    // One style [a].
    assert_eq!(ui.styles.len(), 1);

    assert!(!ui.has_primary_style(&elem_a));
    assert!(ui.has_primary_style(&elem_b));

    // [a] will be removed.
    ui.remove_element(&elem_a);
    assert_eq!(ui.styles.len(), 0);
}

#[test]
fn compose_applies_style_chain() {
    let mut ui = Ui::new();
    ui.set(LABEL_STYLE, "from_chain");
    let id = ui.compose(|_| {});

    assert_eq!(ui.text(&id), "from_chain");
}

#[test]
fn compose_with_inline_overrides_chain() {
    let mut ui = Ui::new();
    ui.set(LABEL_STYLE, "from_chain");
    let id = ui.compose(|s| *s = "inline");

    assert_eq!(ui.text(&id), "inline");
}

#[test]
fn compose_scope_does_not_leak() {
    let mut ui = Ui::new();
    let inner = ui.compose(|s| *s = "inner");
    // Styles set inside compose must not affect elements added after
    // it returns.
    let outer = ui.add_with(LABEL, |text, _, _| *text = "outer");

    assert_eq!(ui.text(&inner), "inner");
    assert_eq!(ui.text(&outer), "outer");
}

#[test]
fn removing_an_element_removes_its_subtree() {
    let mut ui = Ui::new();
    let mut leaf = ElementId::placeholder();
    let root = ui.add_with(VERTICAL, |_, ui, v| {
        leaf = ui.add(LABEL);
        v.push(leaf);
    });
    assert_eq!(ui.elements.len(), 2);
    assert_eq!(ui.elements.parent(&leaf), Some(root));
    assert!(ui.remove_element(&root));
    assert_eq!(ui.elements.len(), 0);
    assert!(!ui.elements.contains(&leaf));
    assert!(!ui.remove_element(&root));
}

#[test]
fn bubble_path_walks_up_the_parents() {
    let mut ui = Ui::new();
    let mut mid = ElementId::placeholder();
    let mut leaf = ElementId::placeholder();
    let root = ui.add_with(VERTICAL, |_, ui, v| {
        mid = ui.add_with(VERTICAL, |_, ui, v| {
            leaf = ui.add(LABEL);
            v.push(leaf);
        });
        v.push(mid);
    });
    assert_eq!(ui.elements.bubble_path(&leaf), vec![leaf, mid, root]);
    assert_eq!(ui.elements.bubble_path(&root), vec![root]);
}
