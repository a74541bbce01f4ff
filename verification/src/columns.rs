//! Column bookkeeping for the heterogeneous tables: each stored type
//! gets one column, numbered in the order the types first appear.
//!
//! The values themselves live in type-erased columns outside this
//! crate; what is kept here is the map from a type's key to its column,
//! which is what makes a [`ColumnId`] stable for the lifetime of a
//! table.
use vstd::prelude::*;

use crate::collections::{slot_map_entries, slot_map_get, slot_map_insert, slot_map_new, SlotMap};
use crate::style::TypeKey;

verus! {

/// Opaque index into a table's column list.
///
/// Stable for the lifetime of the table; obtained once per type and
/// used to skip the type lookup on hot paths.
#[derive(Debug, Clone, Copy, PartialEq, Eq, Hash, Structural)]
pub struct ColumnId(usize);

impl ColumnId {
    /// The position of the column in the table's column list.
    pub closed spec fn spec_index(self) -> usize {
        self.0
    }

    /// The position of the column in the table's column list.
    pub fn index(self) -> (r: usize)
        ensures
            r == self.spec_index(),
    {
        self.0
    }
}

/// Which column each stored type owns, and how many columns there are.
pub struct ColumnSlots {
    slots: SlotMap,
    len: usize,
}

/// The slots after making sure `t` has a column: unchanged when it has
/// one, else `t` gets the next index, `len`.
pub open spec fn slots_ensured(slots: Map<u64, usize>, len: usize, t: u64) -> Map<u64, usize> {
    if slots.contains_key(t) {
        slots
    } else {
        slots.insert(t, len)
    }
}

impl ColumnSlots {
    /// The column index of each type key that has a column.
    pub closed spec fn slots(&self) -> Map<u64, usize> {
        slot_map_entries(self.slots)
    }

    /// The number of columns.
    pub closed spec fn column_count(&self) -> usize {
        self.len
    }

    /// Every column index is below the count, and no two types share a
    /// column; so the indices in use are exactly `0..count`.
    pub open spec fn wf(&self) -> bool {
        &&& self.slots().dom().finite()
        &&& self.slots().dom().len() == self.column_count()
        &&& forall|t: u64| #[trigger] self.slots().contains_key(t) ==> self.slots()[t] < self.column_count()
        &&& forall|a: u64, b: u64|
            #[trigger] self.slots().contains_key(a) && #[trigger] self.slots().contains_key(b) && self.slots()[a]
                == self.slots()[b] ==> a == b
    }

    /// No columns.
    pub fn new() -> (r: Self)
        ensures
            r.slots().dom().is_empty(),
            r.column_count() == 0,
            r.wf(),
    {
        let r = ColumnSlots { slots: slot_map_new(), len: 0 };
        proof {
            assert(r.slots().dom() =~= Set::<u64>::empty());
        }
        r
    }

    /// The column of `t`, or `None` if no value of that type was ever
    /// stored.
    pub fn type_column(&self, t: TypeKey) -> (r: Option<ColumnId>)
        ensures
            r is Some <==> self.slots().contains_key(t.0),
            r matches Some(c) ==> c.spec_index() == self.slots()[t.0],
    {
        match slot_map_get(&self.slots, t.0) {
            Some(i) => Some(ColumnId(i)),
            None => None,
        }
    }

    /// The column of `t`, giving it the next one if it has none yet;
    /// `true` with it when the column is new, and the caller then
    /// appends that column.
    pub fn ensure_column(&mut self, t: TypeKey) -> (r: (ColumnId, bool))
        requires
            old(self).wf(),
            old(self).column_count() < usize::MAX,
        ensures
            final(self).wf(),
            final(self).slots() == slots_ensured(old(self).slots(), old(self).column_count(), t.0),
            r.1 == !old(self).slots().contains_key(t.0),
            r.0.spec_index() == final(self).slots()[t.0],
            r.1 ==> r.0.spec_index() == old(self).column_count() && final(self).column_count()
                == old(self).column_count() + 1,
            !r.1 ==> final(self).column_count() == old(self).column_count(),
    {
        match slot_map_get(&self.slots, t.0) {
            Some(i) => (ColumnId(i), false),
            None => {
                let col = ColumnId(self.len);
                slot_map_insert(&mut self.slots, t.0, self.len);
                self.len = self.len + 1;
                proof {
                    let olds = old(self).slots();
                    assert(self.slots().dom() =~= olds.dom().insert(t.0));
                    assert forall|a: u64, b: u64|
                        #[trigger] self.slots().contains_key(a) && #[trigger] self.slots().contains_key(b)
                            && self.slots()[a] == self.slots()[b] implies a == b by {
                        if a != t.0 && b != t.0 {
                            assert(olds.contains_key(a) && olds.contains_key(b));
                        } else if a == t.0 && b != t.0 {
                            assert(olds.contains_key(b));
                        } else if a != t.0 && b == t.0 {
                            assert(olds.contains_key(a));
                        }
                    }
                }
                (col, true)
            },
        }
    }
}

/// A column, once given to a type, stays that type's: making sure any
/// type has a column keeps every existing assignment, and a new column
/// never reuses the index of another type.
pub proof fn law_column_ids_stable(slots: Map<u64, usize>, len: usize, t: u64, u: u64)
    requires
        forall|x: u64| #[trigger] slots.contains_key(x) ==> slots[x] < len,
        forall|a: u64, b: u64|
            #[trigger] slots.contains_key(a) && #[trigger] slots.contains_key(b) && slots[a] == slots[b] ==> a == b,
        slots.contains_key(u),
    ensures
        slots_ensured(slots, len, t).contains_key(u),
        slots_ensured(slots, len, t)[u] == slots[u],
        slots_ensured(slots, len, t).contains_key(t),
        t != u ==> slots_ensured(slots, len, t)[t] != slots_ensured(slots, len, t)[u],
{
}

} // verus!
