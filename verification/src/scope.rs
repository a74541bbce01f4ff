//! Style scoping while the element tree is built.
//!
//! Defaults queued with `set` are committed into a new style node the
//! next time an element is created, and inherited by every element
//! created after it in the same scope. Entering a nested scope (the
//! body of an `add_with` or a composer) saves the outer scope; leaving
//! it restores the outer scope and drops whatever the inner scope
//! queued but never committed, so inner defaults never leak outward.
use vstd::prelude::*;

use crate::style::{FieldKey, StyleId, Styles, TypeKey, chain, resolve_chain};

verus! {

/// The style state of a build context: the node new defaults inherit
/// from, and the first node committed in the current scope.
#[derive(Debug, Clone, Copy, PartialEq, Eq, Structural)]
pub struct StyleScope {
    pub prev_style: Option<StyleId>,
    /// The first style committed within the current scope; it becomes
    /// the primary style of the element the scope builds.
    pub primary_style: Option<StyleId>,
}

/// The outer scope, saved while a nested scope runs.
#[derive(Debug, Clone, Copy, PartialEq, Eq, Structural)]
pub struct SavedScope {
    pub prev_style: Option<StyleId>,
    pub primary_style: Option<StyleId>,
}

impl StyleScope {
    /// A scope that inherits from `prev_style` and has committed
    /// nothing yet.
    pub fn new(prev_style: Option<StyleId>) -> (r: StyleScope)
        ensures
            r.prev_style == prev_style,
            r.primary_style is None,
    {
        StyleScope { prev_style, primary_style: None }
    }

    /// Commits the queued defaults, if any, into a node under the
    /// current one; that node becomes the one later defaults inherit
    /// from, and the scope's primary style if it is the scope's first.
    pub fn commit_pending_styles(&mut self, styles: &mut Styles)
        requires
            old(styles).wf(),
            old(styles).builder().entries().len() > 0 ==> old(styles).can_commit(),
        ensures
            final(styles).wf(),
            final(styles).builder().entries().len() == 0,
            old(styles).builder().entries().len() == 0 ==> *final(styles) == *old(styles) && *final(self)
                == *old(self),
            old(styles).builder().entries().len() > 0 ==> {
                &&& final(styles).has(old(styles).current())
                &&& final(styles).node(old(styles).current()).parent() == old(self).prev_style
                &&& forall|t: TypeKey|
                    #[trigger] final(styles).node(old(styles).current()).fields_of(t) == old(styles).builder().fields_for(t)
                &&& final(self).prev_style == Some(old(styles).current())
                &&& final(self).primary_style == (if old(self).primary_style is None {
                    Some(old(styles).current())
                } else {
                    old(self).primary_style
                })
                &&& final(styles).current().gen_id() == old(styles).ids().spec_next_id()
            },
    {
        if styles.should_commit() {
            let committed_id = styles.current_id();
            styles.commit_styles(self.prev_style);
            self.prev_style = Some(committed_id);
            if self.primary_style.is_none() {
                self.primary_style = Some(committed_id);
            }
        }
    }

    /// Saves this scope for a nested one and starts the nested scope
    /// with no primary style yet.
    pub fn enter(&mut self) -> (saved: SavedScope)
        ensures
            saved.prev_style == old(self).prev_style,
            saved.primary_style == old(self).primary_style,
            final(self).prev_style == old(self).prev_style,
            final(self).primary_style is None,
    {
        let saved = SavedScope { prev_style: self.prev_style, primary_style: self.primary_style };
        self.primary_style = None;
        saved
    }

    /// Leaves a nested scope: restores the saved outer scope and drops
    /// whatever the nested scope queued but did not commit.
    pub fn exit(&mut self, saved: SavedScope, styles: &mut Styles)
        requires
            old(styles).wf(),
        ensures
            final(self).prev_style == saved.prev_style,
            final(self).primary_style == saved.primary_style,
            final(styles).wf(),
            final(styles).builder().entries().len() == 0,
            final(styles).nodes() == old(styles).nodes(),
            final(styles).current() == old(styles).current(),
            final(styles).can_commit() == old(styles).can_commit(),
    {
        self.prev_style = saved.prev_style;
        self.primary_style = saved.primary_style;
        styles.clear_builder();
    }

    /// Takes the primary style of the current scope, leaving none.
    pub fn take_primary(&mut self) -> (r: Option<StyleId>)
        ensures
            r == old(self).primary_style,
            final(self).primary_style is None,
            final(self).prev_style == old(self).prev_style,
    {
        let r = self.primary_style;
        self.primary_style = None;
        r
    }

    /// The fields of type `t` an instance created now inherits, each
    /// paired with the node whose value it takes.
    pub fn resolve(&self, styles: &Styles, t: TypeKey) -> (r: Vec<(FieldKey, StyleId)>)
        requires
            styles.wf(),
        ensures
            self.prev_style matches Some(id) ==> r@ == resolve_chain(
                styles.nodes(),
                chain(styles.nodes(), id, styles.nodes().len()),
                t,
                Seq::empty(),
            ),
            self.prev_style is None ==> r@.len() == 0,
    {
        match &self.prev_style {
            Some(id) => styles.resolve(t, id),
            None => Vec::new(),
        }
    }
}

/// Leaving a nested scope gives back exactly the scope that was
/// entered, whatever happened inside it.
pub proof fn law_scope_restored(before: StyleScope, saved: SavedScope, after: StyleScope)
    requires
        saved.prev_style == before.prev_style,
        saved.primary_style == before.primary_style,
        after.prev_style == saved.prev_style,
        after.primary_style == saved.primary_style,
    ensures
        after == before,
{
}

} // verus!
