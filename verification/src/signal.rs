//! Bookkeeping of reactive signals: which signals were ever added,
//! which hold a value, and which were set since the dirty set was last
//! taken.
//!
//! Signal values are of arbitrary types and are kept by the caller,
//! keyed by the packed signal id; this module hands out the ids and
//! tracks liveness and changes.
use vstd::prelude::*;

use crate::collections::{
    IdSet, ScopeMap, id_set_contains, id_set_drain, id_set_insert, id_set_members, id_set_new, id_set_remove,
    scope_list_entries, scope_list_insert, scope_list_new, scope_map_entries, scope_map_insert, scope_map_new, scope_map_remove,
};
use crate::id::{GenId, IdGenerator, group_gen_id};
use crate::style::TypeKey;

verus! {

/// A scope registered on a signal, with its types erased: the type of
/// the signal's value, the type of the world it builds in, and the
/// address of the function that builds it.
#[derive(Debug, Clone, Copy, PartialEq, Eq, Structural)]
pub struct UntypedScope {
    pub value_type: TypeKey,
    pub world_type: TypeKey,
    pub scope_fn: usize,
}

/// A signal together with a scope over it.
#[derive(Debug, Clone, Copy, PartialEq, Eq, Structural)]
pub struct ScopeEl {
    pub id: GenId,
    pub scope: UntypedScope,
}

/// The generational key of a scope within its signal's list: the slot
/// and the slot's generation.
#[derive(Debug, Clone, Copy, PartialEq, Eq, Hash, Structural)]
pub struct ScopeKey {
    pub index: usize,
    pub generation: u32,
}

/// The signals ever added, the live ones, the changed ones, the scopes
/// registered on each, and the ids.
pub struct Signals {
    known: IdSet,
    live: IdSet,
    dirty: IdSet,
    scopes: ScopeMap,
    id_gen: IdGenerator,
}

impl Signals {
    /// The packed ids of every signal ever added; a removed signal
    /// stays known.
    pub closed spec fn known(&self) -> Set<u64> {
        id_set_members(self.known)
    }

    /// The packed ids of the live signals.
    pub closed spec fn live(&self) -> Set<u64> {
        id_set_members(self.live)
    }

    /// The packed ids of the signals set since the dirty set was last
    /// taken.
    pub closed spec fn dirty(&self) -> Set<u64> {
        id_set_members(self.dirty)
    }

    /// The scopes registered on each signal, keyed by the packed id.
    pub closed spec fn scopes(&self) -> Map<u64, Map<ScopeKey, UntypedScope>> {
        scope_map_entries(self.scopes)
    }

    /// The scopes registered on the signal with packed id `k`.
    pub open spec fn scopes_of(&self, k: u64) -> Map<ScopeKey, UntypedScope> {
        if self.scopes().contains_key(k) {
            self.scopes()[k]
        } else {
            Map::empty()
        }
    }

    /// The id generator.
    pub closed spec fn ids(&self) -> IdGenerator {
        self.id_gen
    }

    /// Every live signal is known and holds a live id of the
    /// generator, under the generator's bookkeeping.
    pub closed spec fn wf(&self) -> bool {
        &&& self.ids().fresh_ok()
        &&& self.live().subset_of(self.known())
        &&& forall|g: GenId| #[trigger] self.live().contains(g.spec_bits()) ==> self.ids().is_live(g)
    }

    /// No signals.
    pub fn new() -> (r: Signals)
        ensures
            r.wf(),
            r.known().is_empty(),
            r.live().is_empty(),
            r.dirty().is_empty(),
            r.scopes().dom().is_empty(),
    {
        Signals {
            known: id_set_new(),
            live: id_set_new(),
            dirty: id_set_new(),
            scopes: scope_map_new(),
            id_gen: IdGenerator::new(),
        }
    }

    /// Whether another signal can be given a fresh id.
    pub fn can_add_now(&self) -> (r: bool)
        ensures
            r == self.ids().can_issue(),
    {
        self.id_gen.unused_len() > 0 || self.id_gen.next_slot_value() < u32::MAX
    }

    /// Registers a new signal and returns its id; the caller stores its
    /// initial value under that id.
    pub fn add_signal(&mut self) -> (r: GenId)
        requires
            old(self).ids().can_issue(),
        ensures
            r == old(self).ids().spec_next_id(),
            final(self).known() == old(self).known().insert(r.spec_bits()),
            final(self).live() == old(self).live().insert(r.spec_bits()),
            final(self).dirty() == old(self).dirty(),
            final(self).scopes() == old(self).scopes(),
            old(self).wf() ==> final(self).wf() && !old(self).live().contains(r.spec_bits()),
    {
        broadcast use group_gen_id;
        let ghost before = self.ids();
        let id = self.id_gen.new_id();
        id_set_insert(&mut self.known, id.to_bits());
        id_set_insert(&mut self.live, id.to_bits());
        proof {
            if old(self).wf() {
                if old(self).live().contains(id.spec_bits()) {
                    assert(before.is_live(id));
                }
                assert forall|g: GenId| #[trigger] self.live().contains(g.spec_bits()) implies self.ids().is_live(g) by {
                    if g != id {
                        assert(old(self).live().contains(g.spec_bits()));
                        assert(before.is_live(g));
                    }
                }
            }
        }
        id
    }

    /// Removes signal `id` if it was ever added: it is no longer live
    /// nor changed, its scopes are dropped, and its id goes back to the
    /// pool. Returns `true`
    /// exactly when `id` was ever added; nothing changes otherwise.
    ///
    /// A signal stays known after its removal, so removing it again
    /// reports `true` again and returns its id to the pool a second
    /// time; the bookkeeping then no longer keeps later ids apart.
    pub fn remove_signal(&mut self, id: GenId) -> (r: bool)
        ensures
            r == old(self).known().contains(id.spec_bits()),
            final(self).known() == old(self).known(),
            r ==> {
                &&& final(self).live() == old(self).live().remove(id.spec_bits())
                &&& final(self).dirty() == old(self).dirty().remove(id.spec_bits())
                &&& final(self).scopes() == old(self).scopes().remove(id.spec_bits())
                &&& final(self).ids().unused() == old(self).ids().unused().push(id)
                &&& final(self).ids().next_slot() == old(self).ids().next_slot()
                &&& final(self).ids().current() == old(self).ids().current()
            },
            !r ==> final(self).live() == old(self).live() && final(self).dirty() == old(self).dirty()
                && final(self).scopes() == old(self).scopes() && final(self).ids() == old(self).ids(),
            old(self).wf() && old(self).live().contains(id.spec_bits()) ==> final(self).wf(),
    {
        broadcast use group_gen_id;
        if !id_set_contains(&self.known, id.to_bits()) {
            return false;
        }
        id_set_remove(&mut self.live, id.to_bits());
        id_set_remove(&mut self.dirty, id.to_bits());
        scope_map_remove(&mut self.scopes, id.to_bits());
        let ghost before = self.ids();
        self.id_gen.recycle(id);
        proof {
            if old(self).wf() && old(self).live().contains(id.spec_bits()) {
                assert(before.is_live(id));
                assert forall|g: GenId| #[trigger] self.live().contains(g.spec_bits()) implies self.ids().is_live(g) by {
                    assert(old(self).live().contains(g.spec_bits()));
                    assert(g != id);
                    assert(before.is_live(g));
                    if g.slot() == id.slot() {
                        assert(g.gen() == id.gen());
                        GenId::lemma_parts(g);
                        GenId::lemma_parts(id);
                    }
                }
            }
        }
        true
    }

    /// Registers `scope` on signal `id` and returns its key, which no
    /// scope already on that signal shares a slot with. The signal's
    /// other scopes, and every other signal's, are kept.
    pub fn add_scope(&mut self, id: GenId, scope: UntypedScope) -> (r: ScopeKey)
        ensures
            final(self).scopes() == old(self).scopes().insert(id.spec_bits(), old(self).scopes_of(id.spec_bits()).insert(r, scope)),
            forall|k: ScopeKey| #[trigger] old(self).scopes_of(id.spec_bits()).contains_key(k) ==> k.index != r.index,
            final(self).known() == old(self).known(),
            final(self).live() == old(self).live(),
            final(self).dirty() == old(self).dirty(),
            final(self).ids() == old(self).ids(),
            old(self).wf() ==> final(self).wf(),
    {
        let mut list = match scope_map_remove(&mut self.scopes, id.to_bits()) {
            Some(l) => l,
            None => {
                let l = scope_list_new();
                assert(scope_list_entries(l) =~= Map::empty());
                l
            },
        };
        assert(scope_list_entries(list) == old(self).scopes_of(id.spec_bits()));
        let key = scope_list_insert(&mut list, scope);
        scope_map_insert(&mut self.scopes, id.to_bits(), list);
        proof {
            assert(self.scopes() =~= old(self).scopes().insert(id.spec_bits(), old(self).scopes_of(id.spec_bits()).insert(key, scope)));
        }
        key
    }

    /// Records that signal `id` was set; the caller stores the value.
    pub fn mark_set(&mut self, id: GenId)
        ensures
            old(self).wf() ==> final(self).wf(),
            final(self).known() == old(self).known(),
            final(self).dirty() == old(self).dirty().insert(id.spec_bits()),
            final(self).live() == old(self).live(),
            final(self).scopes() == old(self).scopes(),
            final(self).ids() == old(self).ids(),
    {
        id_set_insert(&mut self.dirty, id.to_bits());
        proof {
            if old(self).wf() {
                assert forall|g: GenId| #[trigger] self.live().contains(g.spec_bits()) implies self.ids().is_live(g) by {
                    assert(old(self).live().contains(g.spec_bits()));
                }
            }
        }
    }

    /// Whether `id` is a live signal.
    pub fn contains(&self, id: GenId) -> (r: bool)
        ensures
            r == self.live().contains(id.spec_bits()),
    {
        id_set_contains(&self.live, id.to_bits())
    }

    /// Drains the signals set since the last call, each once.
    pub fn take_dirty(&mut self) -> (r: Vec<GenId>)
        ensures
            old(self).wf() ==> final(self).wf(),
            final(self).known() == old(self).known(),
            final(self).ids() == old(self).ids(),
            final(self).dirty().is_empty(),
            final(self).live() == old(self).live(),
            final(self).scopes() == old(self).scopes(),
            forall|g: GenId| #[trigger] r@.contains(g) <==> old(self).dirty().contains(g.spec_bits()),
            r@.no_duplicates(),
    {
        broadcast use group_gen_id;
        let keys = id_set_drain(&mut self.dirty);
        let mut out: Vec<GenId> = Vec::new();
        let mut i: usize = 0;
        while i < keys.len()
            invariant
                i <= keys@.len(),
                keys@.no_duplicates(),
                out@.len() == i,
                forall|j: int| 0 <= j < i ==> (#[trigger] out@[j]).spec_bits() == keys@[j],
            decreases keys@.len() - i,
        {
            let g = GenId::from_bits(keys[i]);
            out.push(g);
            i = i + 1;
        }
        proof {
            if old(self).wf() {
                assert forall|g: GenId| #[trigger] self.live().contains(g.spec_bits()) implies self.ids().is_live(g) by {
                    assert(old(self).live().contains(g.spec_bits()));
                }
            }
            assert forall|g: GenId| #[trigger] out@.contains(g) <==> old(self).dirty().contains(g.spec_bits()) by {
                if out@.contains(g) {
                    let j = choose|j: int| 0 <= j < out@.len() && out@[j] == g;
                    assert(keys@.contains(keys@[j]));
                }
                if old(self).dirty().contains(g.spec_bits()) {
                    assert(keys@.to_set().contains(g.spec_bits()));
                    let j = choose|j: int| 0 <= j < keys@.len() && keys@[j] == g.spec_bits();
                    assert(out@[j].spec_bits() == g.spec_bits());
                    GenId::lemma_bits_injective(out@[j], g);
                    assert(out@.contains(out@[j]));
                }
            }
            assert forall|a: int, b: int| 0 <= a < b < out@.len() implies out@[a] != out@[b] by {
                assert(keys@[a] != keys@[b]);
            }
        }
        out
    }
}

} // verus!
