//! The style tree.
//!
//! Style defaults are queued field by field in a [`StyleBuilder`] and
//! committed, all at once, into an immutable [`Style`] node. Each node
//! links to the node it inherits from, forming the chain that
//! [`Styles::resolve`] walks: the first value found for a field, from
//! the leaf towards the root, wins.
//!
//! Field values themselves are typed and live with the caller, keyed
//! by [`StyleValueId`]; this module keeps the structure.
use vstd::prelude::*;

use crate::collections::{
    SpanMap, StyleNodes, span_map_entries, span_map_get, span_map_insert, span_map_new, style_node_entries,
    style_nodes_get, style_nodes_insert, style_nodes_len, style_nodes_new, style_nodes_remove,
};
use crate::id::{GenId, IdGenerator, group_gen_id, ids_recycled};

verus! {

/// Identifies a stylable type: every field of a style belongs to the
/// type it styles.
#[derive(Debug, Clone, Copy, PartialEq, Eq, Hash, Structural)]
pub struct TypeKey(pub u64);

/// Identifies one field of one stylable type.
#[derive(Debug, Clone, Copy, PartialEq, Eq, Hash, Structural)]
pub struct FieldKey(pub u64);

/// Generational id of a committed style node.
#[derive(Debug, Clone, Copy, PartialEq, Eq, Hash, Structural)]
pub struct StyleId(GenId);

impl StyleId {
    /// The generational id underneath.
    pub closed spec fn gen_id(self) -> GenId {
        self.0
    }

    /// The key of this id in the node map.
    pub open spec fn key(self) -> u64 {
        self.gen_id().spec_bits()
    }

    pub broadcast proof fn lemma_key_injective(a: StyleId, b: StyleId)
        ensures
            #![trigger a.key(), b.key()]
            a.key() == b.key() ==> a == b,
    {
        broadcast use group_gen_id;
    }

    pub(crate) fn from_gen(id: GenId) -> (r: StyleId)
        ensures
            r.gen_id() == id,
    {
        StyleId(id)
    }

    /// The generational id underneath.
    pub fn as_gen_id(&self) -> (r: GenId)
        ensures
            r == self.gen_id(),
    {
        self.0
    }

    /// The key of this id in the node map.
    pub fn to_key(&self) -> (r: u64)
        ensures
            r == self.key(),
    {
        self.0.to_bits()
    }
}

/// Where one style value is stored: the style node that set it and the
/// field it sets.
#[derive(Debug, Clone, Copy, PartialEq, Eq, Hash, Structural)]
pub struct StyleValueId {
    pub style: StyleId,
    pub field: FieldKey,
}

impl StyleValueId {
    pub fn new(style: StyleId, field: FieldKey) -> (r: StyleValueId)
        ensures
            r.style == style,
            r.field == field,
    {
        StyleValueId { style, field }
    }
}

/// Half-open index range `[start, end)` into a style's field list.
#[derive(Debug, Clone, Copy, PartialEq, Eq, Structural)]
pub struct Span {
    pub start: usize,
    pub end: usize,
}

impl Span {
    pub fn new(start: usize, end: usize) -> (r: Span)
        ensures
            r.start == start,
            r.end == end,
    {
        Span { start, end }
    }
}

/// An immutable, committed snapshot of field changes for one style
/// scope.
///
/// A node has up to two children, filled in commit order; removing a
/// node removes every node below it.
pub struct Style {
    parent_id: Option<StyleId>,
    index_map: SpanMap,
    fields: Vec<FieldKey>,
    children: [Option<StyleId>; 2],
}

/// Whether some pair in `m` has the key `t`.
pub open spec fn has_key<V>(m: Seq<(TypeKey, V)>, t: TypeKey) -> bool {
    exists|i: int| 0 <= i < m.len() && (#[trigger] m[i]).0 == t
}

/// The value of the pair in `m` whose key is `t` (the keys are
/// distinct where this is used).
pub open spec fn value_of<V>(m: Seq<(TypeKey, V)>, t: TypeKey) -> V {
    m[choose|i: int| 0 <= i < m.len() && (#[trigger] m[i]).0 == t].1
}

/// No key occurs twice in `m`.
pub open spec fn distinct_keys<V>(m: Seq<(TypeKey, V)>) -> bool {
    forall|i: int, j: int| 0 <= i < j < m.len() ==> (#[trigger] m[i]).0 != (#[trigger] m[j]).0
}

pub proof fn lemma_value_of<V>(m: Seq<(TypeKey, V)>, i: int)
    requires
        distinct_keys(m),
        0 <= i < m.len(),
    ensures
        has_key(m, m[i].0),
        value_of(m, m[i].0) == m[i].1,
{
    let t = m[i].0;
    assert(0 <= i < m.len() && m[i].0 == t);
    let j = choose|j: int| 0 <= j < m.len() && (#[trigger] m[j]).0 == t;
    if j < i {
        assert(m[j].0 != m[i].0);
    } else if i < j {
        assert(m[i].0 != m[j].0);
    }
}

impl Style {
    /// The node this one inherits from.
    pub closed spec fn parent(self) -> Option<StyleId> {
        self.parent_id
    }

    /// The two child slots.
    pub closed spec fn child_slot(self, i: int) -> Option<StyleId> {
        self.children@[i]
    }

    /// `c` sits in one of the child slots.
    pub open spec fn has_child(self, c: StyleId) -> bool {
        self.child_slot(0) == Some(c) || self.child_slot(1) == Some(c)
    }

    /// The span of each type's fields, keyed by the type's key.
    closed spec fn spans(self) -> Map<u64, Span> {
        span_map_entries(self.index_map)
    }

    /// The fields this node sets for type `t`, in stored order.
    pub closed spec fn fields_of(self, t: TypeKey) -> Seq<FieldKey> {
        if self.spans().contains_key(t.0) {
            let span = self.spans()[t.0];
            self.fields@.subrange(span.start as int, span.end as int)
        } else {
            Seq::empty()
        }
    }

    /// Spans are in bounds and no field occurs twice within a type.
    pub closed spec fn wf(self) -> bool {
        &&& forall|k: u64|
            #[trigger] self.spans().contains_key(k) ==> self.spans()[k].start <= self.spans()[k].end
                <= self.fields@.len()
        &&& forall|t: TypeKey| (#[trigger] self.fields_of(t)).no_duplicates()
    }

    /// This node with `c` put in its first empty child slot; unchanged
    /// when both slots are taken.
    pub closed spec fn spec_add_child(self, c: StyleId) -> Style {
        if self.children@[0] is None {
            Style { children: [Some(c), self.children@[1]], ..self }
        } else if self.children@[1] is None {
            Style { children: [self.children@[0], Some(c)], ..self }
        } else {
            self
        }
    }

    pub proof fn lemma_add_child(self, c: StyleId)
        ensures
            self.spec_add_child(c).parent() == self.parent(),
            forall|t: TypeKey| #[trigger] self.spec_add_child(c).fields_of(t) == self.fields_of(t),
            self.wf() ==> self.spec_add_child(c).wf(),
            self.child_slot(0) is None ==> self.spec_add_child(c).child_slot(0) == Some(c)
                && self.spec_add_child(c).child_slot(1) == self.child_slot(1),
            self.child_slot(0) is Some && self.child_slot(1) is None ==> self.spec_add_child(c).child_slot(0)
                == self.child_slot(0) && self.spec_add_child(c).child_slot(1) == Some(c),
            self.child_slot(0) is Some && self.child_slot(1) is Some ==> self.spec_add_child(c) == self,
    {
        assert(self.spec_add_child(c).spans() == self.spans());
        assert(self.spec_add_child(c).fields@ == self.fields@);
        assert(forall|t: TypeKey| #[trigger] self.spec_add_child(c).fields_of(t) == self.fields_of(t));
    }

    /// This node with every child slot that names `c` emptied.
    pub closed spec fn spec_free_slot(self, c: StyleId) -> Style {
        Style {
            children: [
                if self.children@[0] == Some(c) {
                    None
                } else {
                    self.children@[0]
                },
                if self.children@[1] == Some(c) {
                    None
                } else {
                    self.children@[1]
                },
            ],
            ..self
        }
    }

    pub proof fn lemma_free_slot(self, c: StyleId)
        ensures
            self.spec_free_slot(c).parent() == self.parent(),
            forall|t: TypeKey| #[trigger] self.spec_free_slot(c).fields_of(t) == self.fields_of(t),
            self.wf() ==> self.spec_free_slot(c).wf(),
            self.spec_free_slot(c).child_slot(0) == (if self.child_slot(0) == Some(c) {
                None
            } else {
                self.child_slot(0)
            }),
            self.spec_free_slot(c).child_slot(1) == (if self.child_slot(1) == Some(c) {
                None
            } else {
                self.child_slot(1)
            }),
    {
        assert(self.spec_free_slot(c).spans() == self.spans());
        assert(forall|t: TypeKey| #[trigger] self.spec_free_slot(c).fields_of(t) == self.fields_of(t));
    }

    /// Returns the node this one inherits from.
    pub fn parent_id(&self) -> (r: Option<StyleId>)
        ensures
            r == self.parent(),
    {
        self.parent_id
    }

    /// Returns the two child slots.
    pub fn children(&self) -> (r: [Option<StyleId>; 2])
        ensures
            r@[0] == self.child_slot(0),
            r@[1] == self.child_slot(1),
    {
        self.children
    }

    /// The span of the fields set for `t`, if this node sets any.
    fn get_span(&self, t: TypeKey) -> (r: Option<Span>)
        ensures
            r == self.spans().get(t.0),
    {
        span_map_get(&self.index_map, t.0)
    }

    /// Returns the fields this node sets for `t`, in stored order.
    pub fn get_fields(&self, t: TypeKey) -> (r: Vec<FieldKey>)
        requires
            self.wf(),
        ensures
            r@ == self.fields_of(t),
    {
        let mut out: Vec<FieldKey> = Vec::new();
        match self.get_span(t) {
            None => {},
            Some(span) => {
                proof {
                    assert(self.spans().contains_key(t.0));
                }
                let mut k = span.start;
                while k < span.end
                    invariant
                        span.start <= k <= span.end <= self.fields@.len(),
                        out@ == self.fields@.subrange(span.start as int, k as int),
                    decreases span.end - k,
                {
                    out.push(self.fields[k]);
                    k = k + 1;
                }
            },
        }
        out
    }
}

/// Field changes queued for the open style scope, grouped by type.
pub struct StyleBuilder {
    field_map: Vec<(TypeKey, Vec<FieldKey>)>,
}

/// The pairs of a builder, each type with the fields queued for it.
pub open spec fn builder_view(m: Seq<(TypeKey, Vec<FieldKey>)>) -> Seq<(TypeKey, Seq<FieldKey>)> {
    m.map_values(|p: (TypeKey, Vec<FieldKey>)| (p.0, p.1@))
}

impl StyleBuilder {
    /// Each queued type with its queued fields, in first-queued order.
    pub closed spec fn entries(self) -> Seq<(TypeKey, Seq<FieldKey>)> {
        builder_view(self.field_map@)
    }

    /// The fields queued for `t`, in the order they were first queued.
    pub open spec fn fields_for(self, t: TypeKey) -> Seq<FieldKey> {
        if has_key(self.entries(), t) {
            value_of(self.entries(), t)
        } else {
            Seq::empty()
        }
    }

    /// Each type is listed once, with at least one field and no field
    /// twice.
    pub open spec fn wf(self) -> bool {
        &&& distinct_keys(self.entries())
        &&& forall|i: int|
            0 <= i < self.entries().len() ==> (#[trigger] self.entries()[i]).1.len() > 0
                && self.entries()[i].1.no_duplicates()
    }

    pub proof fn lemma_fields_for(self)
        requires
            self.wf(),
        ensures
            forall|t: TypeKey| (#[trigger] self.fields_for(t)).no_duplicates(),
            forall|i: int|
                0 <= i < self.entries().len() ==> self.fields_for(#[trigger] self.entries()[i].0)
                    == self.entries()[i].1,
    {
        assert forall|t: TypeKey| (#[trigger] self.fields_for(t)).no_duplicates() by {
            if has_key(self.entries(), t) {
                let i = choose|i: int| 0 <= i < self.entries().len() && (#[trigger] self.entries()[i]).0 == t;
                lemma_value_of(self.entries(), i);
            }
        }
        assert forall|i: int| 0 <= i < self.entries().len() implies self.fields_for(
            #[trigger] self.entries()[i].0,
        ) == self.entries()[i].1 by {
            lemma_value_of(self.entries(), i);
        }
    }

    pub fn new() -> (r: StyleBuilder)
        ensures
            r.entries().len() == 0,
            r.wf(),
    {
        StyleBuilder { field_map: Vec::new() }
    }

    /// Queues `field` under type `t`. Returns `true` if it was not
    /// queued yet.
    pub fn insert(&mut self, t: TypeKey, field: FieldKey) -> (r: bool)
        requires
            old(self).wf(),
        ensures
            final(self).wf(),
            r == !old(self).fields_for(t).contains(field),
            final(self).fields_for(t) == (if r {
                old(self).fields_for(t).push(field)
            } else {
                old(self).fields_for(t)
            }),
            forall|u: TypeKey| u != t ==> #[trigger] final(self).fields_for(u) == old(self).fields_for(u),
            final(self).entries().len() > 0,
    {
        proof {
            old(self).lemma_fields_for();
        }
        let mut i: usize = 0;
        while i < self.field_map.len()
            invariant
                i <= self.field_map@.len(),
                *self == *old(self),
                old(self).wf(),
                forall|j: int| 0 <= j < i ==> (#[trigger] self.entries()[j]).0 != t,
            decreases self.field_map@.len() - i,
        {
            if self.field_map[i].0 == t {
                let ghost before = self.entries();
                assert(before[i as int] == (self.field_map@[i as int].0, self.field_map@[i as int].1@));
                assert(before[i as int].0 == t);
                let mut k: usize = 0;
                let n = self.field_map[i].1.len();
                while k < n
                    invariant
                        k <= n,
                        n == self.field_map@[i as int].1@.len(),
                        i < self.field_map@.len(),
                        *self == *old(self),
                        old(self).wf(),
                        before == old(self).entries(),
                        before[i as int] == (self.field_map@[i as int].0, self.field_map@[i as int].1@),
                        before[i as int].0 == t,
                        forall|j: int| 0 <= j < k ==> self.field_map@[i as int].1@[j] != field,
                    decreases n - k,
                {
                    if self.field_map[i].1[k] == field {
                        proof {
                            assert(before[i as int].1[k as int] == field);
                            lemma_value_of(before, i as int);
                            assert(old(self).fields_for(t).contains(field));
                        }
                        return false;
                    }
                    k = k + 1;
                }
                assert(!before[i as int].1.contains(field));
                let mut pair = self.field_map.remove(i);
                pair.1.push(field);
                self.field_map.insert(i, pair);
                proof {
                    let after = self.entries();
                    assert(after.len() == before.len());
                    assert forall|j: int| 0 <= j < after.len() && j != i implies #[trigger] after[j] == before[j] by {
                        if j < i {
                            assert(self.field_map@[j] == old(self).field_map@[j]);
                        } else {
                            assert(self.field_map@[j] == old(self).field_map@[j]);
                        }
                    }
                    assert(after[i as int] == (t, before[i as int].1.push(field)));
                    assert(distinct_keys(after)) by {
                        assert forall|a: int, b: int| 0 <= a < b < after.len() implies (#[trigger] after[a]).0
                            != (#[trigger] after[b]).0 by {
                            assert(before[a].0 != before[b].0);
                        }
                    }
                    lemma_value_of(before, i as int);
                    lemma_value_of(after, i as int);
                    assert forall|u: TypeKey| u != t implies #[trigger] self.fields_for(u) == old(self).fields_for(u) by {
                        if has_key(before, u) {
                            let j = choose|j: int| 0 <= j < before.len() && (#[trigger] before[j]).0 == u;
                            lemma_value_of(before, j);
                            lemma_value_of(after, j);
                        }
                        if has_key(after, u) {
                            let j = choose|j: int| 0 <= j < after.len() && (#[trigger] after[j]).0 == u;
                            assert(before[j].0 == u);
                        }
                    }
                    assert(self.wf()) by {
                        assert forall|j: int| 0 <= j < after.len() implies (#[trigger] after[j]).1.len() > 0
                            && after[j].1.no_duplicates() by {
                            if j == i {
                                assert(before[j].1.no_duplicates());
                            }
                        }
                    }
                }
                return true;
            }
            i = i + 1;
        }
        let mut fields: Vec<FieldKey> = Vec::new();
        fields.push(field);
        let ghost before = self.entries();
        self.field_map.push((t, fields));
        proof {
            let after = self.entries();
            assert(after == before.push((t, seq![field])));
            assert(!has_key(before, t));
            assert(distinct_keys(after));
            lemma_value_of(after, before.len() as int);
            assert forall|u: TypeKey| u != t implies #[trigger] self.fields_for(u) == old(self).fields_for(u) by {
                if has_key(before, u) {
                    let j = choose|j: int| 0 <= j < before.len() && (#[trigger] before[j]).0 == u;
                    lemma_value_of(before, j);
                    lemma_value_of(after, j);
                }
                if has_key(after, u) {
                    let j = choose|j: int| 0 <= j < after.len() && (#[trigger] after[j]).0 == u;
                    assert(before[j].0 == u);
                }
            }
            assert(self.wf()) by {
                assert forall|j: int| 0 <= j < after.len() implies (#[trigger] after[j]).1.len() > 0
                    && after[j].1.no_duplicates() by {
                    if j < before.len() {
                        assert(after[j] == before[j]);
                    } else {
                        assert(after[j].1 == seq![field]);
                    }
                }
            }
        }
        true
    }

    /// Drops every queued change.
    pub fn clear(&mut self)
        ensures
            final(self).entries().len() == 0,
            final(self).wf(),
    {
        self.field_map.clear();
    }

    /// Returns `true` when nothing is queued.
    pub fn is_empty(&self) -> (r: bool)
        ensures
            r == (self.entries().len() == 0),
    {
        self.field_map.len() == 0
    }

    /// Consumes the builder and produces a committed [`Style`] that
    /// inherits from `parent_id`, with no children yet.
    pub fn build(self, parent_id: Option<StyleId>) -> (r: Style)
        requires
            self.wf(),
        ensures
            r.wf(),
            r.parent() == parent_id,
            r.child_slot(0) is None,
            r.child_slot(1) is None,
            forall|t: TypeKey| #[trigger] r.fields_of(t) == self.fields_for(t),
    {
        proof {
            self.lemma_fields_for();
        }
        let mut index_map = span_map_new();
        let mut all_fields: Vec<FieldKey> = Vec::new();
        let ghost entries = self.entries();
        let mut i: usize = 0;
        while i < self.field_map.len()
            invariant
                i <= self.field_map@.len(),
                entries == self.entries(),
                self.wf(),
                forall|k: u64|
                    #[trigger] span_map_entries(index_map).contains_key(k) ==> exists|j: int|
                        0 <= j < i && (#[trigger] entries[j]).0.0 == k,
                forall|j: int|
                    #![trigger entries[j]]
                    0 <= j < i ==> {
                        let span = span_map_entries(index_map)[entries[j].0.0];
                        &&& span_map_entries(index_map).contains_key(entries[j].0.0)
                        &&& span.start <= span.end <= all_fields@.len()
                        &&& all_fields@.subrange(span.start as int, span.end as int) == entries[j].1
                    },
            decreases self.field_map@.len() - i,
        {
            let start = all_fields.len();
            let n = self.field_map[i].1.len();
            let mut k: usize = 0;
            let ghost prefix = all_fields@;
            let ghost before = span_map_entries(index_map);
            while k < n
                invariant
                    k <= n,
                    i < self.field_map@.len(),
                    n == self.field_map@[i as int].1@.len(),
                    start == prefix.len(),
                    all_fields@ == prefix + self.field_map@[i as int].1@.subrange(0, k as int),
                decreases n - k,
            {
                all_fields.push(self.field_map[i].1[k]);
                k = k + 1;
                proof {
                    assert(self.field_map@[i as int].1@.subrange(0, k as int) =~= self.field_map@[i as int].1@.subrange(
                        0,
                        k - 1,
                    ).push(self.field_map@[i as int].1@[k - 1]));
                }
            }
            let end = all_fields.len();
            span_map_insert(&mut index_map, self.field_map[i].0.0, Span::new(start, end));
            proof {
                let m = span_map_entries(index_map);
                assert(self.field_map@[i as int].1@.subrange(0, n as int) =~= self.field_map@[i as int].1@);
                assert(entries[i as int] == (self.field_map@[i as int].0, self.field_map@[i as int].1@));
                assert(all_fields@.subrange(start as int, end as int) =~= entries[i as int].1);
                assert forall|kk: u64| #[trigger] m.contains_key(kk) implies exists|j: int|
                    0 <= j < i + 1 && (#[trigger] entries[j]).0.0 == kk by {
                    if kk != entries[i as int].0.0 {
                        assert(before.contains_key(kk));
                        let j = choose|j: int| 0 <= j < i && (#[trigger] entries[j]).0.0 == kk;
                        assert(0 <= j < i + 1 && entries[j].0.0 == kk);
                    } else {
                        assert(0 <= i < i + 1 && entries[i as int].0.0 == kk);
                    }
                }
                assert forall|j: int|
                    #![trigger entries[j]]
                    0 <= j < i + 1 implies {
                        let span = m[entries[j].0.0];
                        &&& m.contains_key(entries[j].0.0)
                        &&& span.start <= span.end <= all_fields@.len()
                        &&& all_fields@.subrange(span.start as int, span.end as int) == entries[j].1
                    } by {
                    if j < i {
                        assert(entries[j].0 != entries[i as int].0);
                        assert(entries[j].0.0 != entries[i as int].0.0);
                        let span = before[entries[j].0.0];
                        assert(all_fields@.subrange(span.start as int, span.end as int)
                            =~= prefix.subrange(span.start as int, span.end as int));
                    }
                }
            }
            i = i + 1;
        }
        let r = Style { parent_id, index_map, fields: all_fields, children: [None, None] };
        proof {
            assert forall|t: TypeKey| #[trigger] r.fields_of(t) == self.fields_for(t) by {
                if has_key(entries, t) {
                    let j = choose|j: int| 0 <= j < entries.len() && (#[trigger] entries[j]).0 == t;
                    lemma_value_of(entries, j);
                    assert(r.spans().contains_key(t.0));
                } else {
                    if r.spans().contains_key(t.0) {
                        let j = choose|j: int| 0 <= j < entries.len() && (#[trigger] entries[j]).0.0 == t.0;
                        assert(entries[j].0 == t);
                    }
                }
            }
            assert forall|k: u64| #[trigger] r.spans().contains_key(k) implies r.spans()[k].start <= r.spans()[k].end
                <= r.fields@.len() by {
                let j = choose|j: int| 0 <= j < entries.len() && (#[trigger] entries[j]).0.0 == k;
            }
        }
        r
    }
}


/// `ids` walked from `id` towards the root along parent links, at most
/// `fuel` nodes, stopping at the first id that has no node.
pub open spec fn chain(nodes: Map<u64, Style>, id: StyleId, fuel: nat) -> Seq<StyleId>
    decreases fuel,
{
    if fuel == 0 || !nodes.contains_key(id.key()) {
        Seq::empty()
    } else {
        match nodes[id.key()].parent() {
            Some(p) => seq![id] + chain(nodes, p, (fuel - 1) as nat),
            None => seq![id],
        }
    }
}

/// The fields of `fs` that `applied` does not hold yet, in order.
pub open spec fn unapplied(fs: Seq<FieldKey>, applied: Seq<FieldKey>) -> Seq<FieldKey>
    decreases fs.len(),
{
    if fs.len() == 0 {
        Seq::empty()
    } else if applied.contains(fs.last()) {
        unapplied(fs.drop_last(), applied)
    } else {
        unapplied(fs.drop_last(), applied).push(fs.last())
    }
}

/// Resolution of type `t` over a chain of nodes, leaf first: each node
/// contributes, paired with its id, the fields it sets that no node
/// before it set.
pub open spec fn resolve_chain(
    nodes: Map<u64, Style>,
    chain: Seq<StyleId>,
    t: TypeKey,
    applied: Seq<FieldKey>,
) -> Seq<(FieldKey, StyleId)>
    decreases chain.len(),
{
    if chain.len() == 0 {
        Seq::empty()
    } else {
        let s = chain[0];
        let fs = nodes[s.key()].fields_of(t);
        unapplied(fs, applied).map_values(|f: FieldKey| (f, s)) + resolve_chain(
            nodes,
            chain.drop_first(),
            t,
            applied + fs,
        )
    }
}

/// The generational ids of the nodes in `order`.
pub open spec fn style_gen_ids(order: Seq<StyleId>) -> Seq<GenId> {
    order.map_values(|x: StyleId| x.gen_id())
}

/// The keys of the ids in `order`.
pub open spec fn keys_of(order: Seq<StyleId>) -> Set<u64> {
    Set::new(|k: u64| exists|i: int| 0 <= i < order.len() && (#[trigger] order[i]).key() == k)
}

/// The map `before` with every node of `order` taken out, where `order`
/// lists the nodes reachable from `id` through child slots: `id` first,
/// then each node after one whose child it is (`parents[k]` names the
/// earlier position), and no child of a removed node is left.
pub open spec fn removal_order(
    before: Map<u64, Style>,
    after: Map<u64, Style>,
    id: StyleId,
    order: Seq<StyleId>,
    parents: Seq<int>,
) -> bool {
    &&& (order.len() > 0 <==> before.contains_key(id.key()))
    &&& order.len() > 0 ==> order[0] == id
    &&& order.no_duplicates()
    &&& parents.len() == order.len()
    &&& forall|k: int| 0 <= k < order.len() ==> before.contains_key((#[trigger] order[k]).key())
    &&& forall|k: int|
        0 < k < order.len() ==> 0 <= #[trigger] parents[k] < k && before[order[parents[k]].key()].has_child(
            order[k],
        )
    &&& forall|j: int, c: StyleId|
        0 <= j < order.len() && #[trigger] before[order[j].key()].has_child(c) ==> !after.contains_key(
            c.key(),
        )
    &&& after.dom() == before.dom() - keys_of(order)
    &&& forall|k: u64| #[trigger] after.contains_key(k) ==> after[k] == before[k]
}

/// A child slot after removals: as it was, or emptied where it named a
/// node no longer in `present`.
pub open spec fn slot_shrunk(before: Option<StyleId>, after: Option<StyleId>, present: Map<u64, Style>) -> bool {
    after == before || (after is None && before is Some && !present.contains_key(before->0.key()))
}

/// A node after removals: the same parent and fields, with child slots
/// that named removed nodes possibly emptied.
pub open spec fn node_shrunk(before: Style, after: Style, present: Map<u64, Style>) -> bool {
    &&& after.parent() == before.parent()
    &&& forall|t: TypeKey| #[trigger] after.fields_of(t) == before.fields_of(t)
    &&& slot_shrunk(before.child_slot(0), after.child_slot(0), present)
    &&& slot_shrunk(before.child_slot(1), after.child_slot(1), present)
}

/// Every node of `after` was in `before`, and changed at most by
/// emptying slots that named removed nodes.
pub open spec fn shrunk_from(before: Map<u64, Style>, after: Map<u64, Style>) -> bool {
    forall|k: u64| #[trigger] after.contains_key(k) ==> before.contains_key(k) && node_shrunk(before[k], after[k], after)
}

/// Every child (in `before`) of a node removed from `before` is gone
/// from `after` too.
pub open spec fn closed_under_children(before: Map<u64, Style>, after: Map<u64, Style>) -> bool {
    forall|x: u64, c: StyleId|
        #![trigger before[x].has_child(c), after.contains_key(x)]
        before.contains_key(x) && !after.contains_key(x) && before[x].has_child(c) ==> !after.contains_key(c.key())
}

/// `nodes` with the child slot of `parent` that names `c` emptied, when
/// `parent` is present.
pub open spec fn free_slot_in(nodes: Map<u64, Style>, parent: Option<StyleId>, c: StyleId) -> Map<u64, Style> {
    match parent {
        Some(p) => if nodes.contains_key(p.key()) {
            nodes.insert(p.key(), nodes[p.key()].spec_free_slot(c))
        } else {
            nodes
        },
        None => nodes,
    }
}

/// Shrinking twice is shrinking once.
pub proof fn lemma_shrink_compose(a: Map<u64, Style>, b: Map<u64, Style>, c: Map<u64, Style>)
    requires
        shrunk_from(a, b),
        closed_under_children(a, b),
        shrunk_from(b, c),
        closed_under_children(b, c),
    ensures
        shrunk_from(a, c),
        closed_under_children(a, c),
{
    assert forall|k: u64| #[trigger] c.contains_key(k) implies a.contains_key(k) && node_shrunk(a[k], c[k], c) by {
        assert(b.contains_key(k));
        assert(node_shrunk(a[k], b[k], b));
        assert(node_shrunk(b[k], c[k], c));
        assert(forall|t: TypeKey| #[trigger] c[k].fields_of(t) == b[k].fields_of(t));
        assert(forall|t: TypeKey| #[trigger] b[k].fields_of(t) == a[k].fields_of(t));
        if a[k].child_slot(0) is Some && !b.contains_key(a[k].child_slot(0)->0.key()) {
            assert(!c.contains_key(a[k].child_slot(0)->0.key()));
        }
        if a[k].child_slot(1) is Some && !b.contains_key(a[k].child_slot(1)->0.key()) {
            assert(!c.contains_key(a[k].child_slot(1)->0.key()));
        }
    }
    assert forall|x: u64, ch: StyleId|
        a.contains_key(x) && !c.contains_key(x) && #[trigger] a[x].has_child(ch) implies !c.contains_key(ch.key()) by {
        if !b.contains_key(x) {
            assert(!b.contains_key(ch.key()));
        } else {
            assert(node_shrunk(a[x], b[x], b));
            if b[x].has_child(ch) {
                assert(b.contains_key(x) && !c.contains_key(x) && b[x].has_child(ch));
            } else {
                assert(!b.contains_key(ch.key()));
            }
        }
    }
}

/// A node that shrank names no child it did not name before.
pub proof fn lemma_shrunk_children(before: Map<u64, Style>, after: Map<u64, Style>)
    requires
        shrunk_from(before, after),
    ensures
        forall|x: u64|
            #[trigger] after.contains_key(x) ==> before.contains_key(x) && (forall|c: StyleId|
                #[trigger] after[x].has_child(c) ==> before[x].has_child(c)),
{
    assert forall|x: u64| #[trigger] after.contains_key(x) implies before.contains_key(x) && (forall|c: StyleId|
        #[trigger] after[x].has_child(c) ==> before[x].has_child(c)) by {
        assert(node_shrunk(before[x], after[x], after));
    }
}

/// Nothing removed is nothing shrunk.
pub proof fn lemma_shrink_refl(a: Map<u64, Style>)
    ensures
        shrunk_from(a, a),
        closed_under_children(a, a),
{
}

/// Below a removed node, with removal closed under children, every
/// node reached is removed too.
pub proof fn lemma_reach_gone(before: Map<u64, Style>, after: Map<u64, Style>, p: StyleId, n: u64, fuel: nat)
    requires
        closed_under_children(before, after),
        !after.contains_key(p.key()),
        style_reach(before, p, n, fuel),
    ensures
        !after.contains_key(n),
    decreases fuel,
{
    if p.key() != n {
        let f = (fuel - 1) as nat;
        let s0 = before[p.key()].child_slot(0);
        if s0 is Some && style_reach(before, s0->0, n, f) {
            assert(before[p.key()].has_child(s0->0));
            lemma_reach_gone(before, after, s0->0, n, f);
        } else {
            let c1 = before[p.key()].child_slot(1)->0;
            assert(before[p.key()].has_child(c1));
            lemma_reach_gone(before, after, c1, n, f);
        }
    }
}

/// Whether node key `k` is reached from `p` within `fuel` steps down
/// the child slots.
pub open spec fn style_reach(nodes: Map<u64, Style>, p: StyleId, k: u64, fuel: nat) -> bool
    decreases fuel,
{
    if p.key() == k {
        true
    } else if fuel > 0 && nodes.contains_key(p.key()) {
        ||| (nodes[p.key()].child_slot(0) matches Some(c) && style_reach(nodes, c, k, (fuel - 1) as nat))
        ||| (nodes[p.key()].child_slot(1) matches Some(c) && style_reach(nodes, c, k, (fuel - 1) as nat))
    } else {
        false
    }
}

/// Whether node key `k` lies in the style subtree of `p`: `p` itself,
/// or reached from it down the child slots.
pub open spec fn in_style_subtree(nodes: Map<u64, Style>, p: StyleId, k: u64) -> bool {
    exists|fuel: nat| #[trigger] style_reach(nodes, p, k, fuel)
}

/// A path down the child slots extends by one child.
proof fn lemma_reach_extend(nodes: Map<u64, Style>, p: StyleId, x: StyleId, c: StyleId, fuel: nat)
    requires
        style_reach(nodes, p, x.key(), fuel),
        nodes.contains_key(x.key()),
        nodes[x.key()].has_child(c),
    ensures
        style_reach(nodes, p, c.key(), fuel + 1),
    decreases fuel,
{
    broadcast use StyleId::lemma_key_injective;
    if p.key() == x.key() {
        assert(p == x);
        assert(style_reach(nodes, c, c.key(), fuel));
    } else {
        let f = (fuel - 1) as nat;
        let s0 = nodes[p.key()].child_slot(0);
        if s0 is Some && style_reach(nodes, s0->0, x.key(), f) {
            lemma_reach_extend(nodes, s0->0, x, c, f);
        } else {
            let c1 = nodes[p.key()].child_slot(1)->0;
            lemma_reach_extend(nodes, c1, x, c, f);
        }
    }
}

/// A path in a smaller map with the same nodes is a path in the larger
/// one.
pub proof fn lemma_reach_submap(small: Map<u64, Style>, large: Map<u64, Style>, p: StyleId, k: u64, fuel: nat)
    requires
        style_reach(small, p, k, fuel),
        forall|x: u64|
            #[trigger] small.contains_key(x) ==> large.contains_key(x) && (forall|c: StyleId|
                #[trigger] small[x].has_child(c) ==> large[x].has_child(c)),
    ensures
        style_reach(large, p, k, fuel),
    decreases fuel,
{
    if p.key() != k {
        let f = (fuel - 1) as nat;
        assert(small.contains_key(p.key()));
        let s0 = small[p.key()].child_slot(0);
        if s0 is Some && style_reach(small, s0->0, k, f) {
            assert(small[p.key()].has_child(s0->0));
            lemma_reach_submap(small, large, s0->0, k, f);
        } else {
            let c1 = small[p.key()].child_slot(1)->0;
            assert(small[p.key()].has_child(c1));
            lemma_reach_submap(small, large, c1, k, f);
        }
    }
}

/// Every node a removal takes out lies in the style subtree of the
/// node removed.
proof fn lemma_removal_in_subtree(
    before: Map<u64, Style>,
    after: Map<u64, Style>,
    id: StyleId,
    order: Seq<StyleId>,
    parents: Seq<int>,
    j: int,
)
    requires
        removal_order(before, after, id, order, parents),
        0 <= j < order.len(),
    ensures
        style_reach(before, id, order[j].key(), j as nat),
    decreases j,
{
    if j > 0 {
        let q = parents[j];
        lemma_removal_in_subtree(before, after, id, order, parents, q);
        lemma_reach_extend(before, id, order[q], order[j], q as nat);
        lemma_reach_more_fuel(before, id, order[j].key(), (q + 1) as nat, j as nat);
    }
}

/// More fuel reaches at least as far.
proof fn lemma_reach_more_fuel(nodes: Map<u64, Style>, p: StyleId, k: u64, f: nat, g: nat)
    requires
        style_reach(nodes, p, k, f),
        f <= g,
    ensures
        style_reach(nodes, p, k, g),
    decreases f,
{
    if p.key() != k {
        let f1 = (f - 1) as nat;
        let g1 = (g - 1) as nat;
        let s0 = nodes[p.key()].child_slot(0);
        if s0 is Some && style_reach(nodes, s0->0, k, f1) {
            lemma_reach_more_fuel(nodes, s0->0, k, f1, g1);
        } else {
            let c1 = nodes[p.key()].child_slot(1)->0;
            lemma_reach_more_fuel(nodes, c1, k, f1, g1);
        }
    }
}

/// A removal under way: `id` and the nodes after it in `order` are
/// gone from `now`, each a child of an earlier one, and every child of
/// a node after the first is gone too.
pub open spec fn partial_removal(
    before: Map<u64, Style>,
    now: Map<u64, Style>,
    id: StyleId,
    order: Seq<StyleId>,
    parents: Seq<int>,
) -> bool {
    &&& order.len() > 0
    &&& order[0] == id
    &&& order.no_duplicates()
    &&& parents.len() == order.len()
    &&& forall|k: int| 0 <= k < order.len() ==> before.contains_key((#[trigger] order[k]).key())
    &&& forall|k: int|
        0 < k < order.len() ==> 0 <= #[trigger] parents[k] < k && before[order[parents[k]].key()].has_child(
            order[k],
        )
    &&& forall|j: int, c: StyleId|
        0 < j < order.len() && #[trigger] before[order[j].key()].has_child(c) ==> !now.contains_key(c.key())
    &&& now.dom() == before.dom() - keys_of(order)
    &&& forall|k: u64| #[trigger] now.contains_key(k) ==> now[k] == before[k]
}

/// `ps` moved up by `n` positions, with the first entry pointing at
/// position zero.
pub open spec fn shift_parents(ps: Seq<int>, n: int) -> Seq<int> {
    Seq::new(ps.len(), |k: int| if k == 0 { 0 } else { ps[k] + n })
}

proof fn lemma_start_removal(before: Map<u64, Style>, id: StyleId)
    requires
        before.contains_key(id.key()),
    ensures
        partial_removal(before, before.remove(id.key()), id, seq![id], seq![0int]),
{
    let order = seq![id];
    assert(before.remove(id.key()).dom() =~= before.dom() - keys_of(order)) by {
        assert(order[0] == id);
        assert forall|k: u64| keys_of(order).contains(k) implies k == id.key() by {
            let i = choose|i: int| 0 <= i < order.len() && (#[trigger] order[i]).key() == k;
            assert(i == 0);
        }
        assert(keys_of(order).contains(id.key()));
    }
}

proof fn lemma_extend_removal(
    before: Map<u64, Style>,
    prev: Map<u64, Style>,
    next: Map<u64, Style>,
    id: StyleId,
    order: Seq<StyleId>,
    parents: Seq<int>,
    c: StyleId,
    o: Seq<StyleId>,
    ps: Seq<int>,
)
    requires
        partial_removal(before, prev, id, order, parents),
        before[id.key()].has_child(c),
        removal_order(prev, next, c, o, ps),
    ensures
        partial_removal(before, next, id, order + o, parents + shift_parents(ps, order.len() as int)),
        !next.contains_key(c.key()),
        next.dom().subset_of(prev.dom()),
{
    broadcast use StyleId::lemma_key_injective;
    let n = order.len() as int;
    let no = order + o;
    let np = parents + shift_parents(ps, n);
    assert forall|k: int| 0 <= k < no.len() implies before.contains_key((#[trigger] no[k]).key()) by {
        if k >= n {
            assert(no[k] == o[k - n]);
            assert(prev.contains_key(o[k - n].key()));
        }
    }
    assert(no.no_duplicates()) by {
        assert forall|a: int, b: int| 0 <= a < no.len() && 0 <= b < no.len() && a != b implies no[a] != no[b] by {
            if a < n && b >= n {
                assert(prev.contains_key(o[b - n].key()));
                assert(keys_of(order).contains(order[a].key()));
            } else if a >= n && b < n {
                assert(prev.contains_key(o[a - n].key()));
                assert(keys_of(order).contains(order[b].key()));
            } else if a >= n && b >= n {
                assert(o[a - n] != o[b - n]);
            }
        }
    }
    assert forall|k: int| 0 < k < no.len() implies 0 <= #[trigger] np[k] < k && before[no[np[k]].key()].has_child(
        no[k],
    ) by {
        if k >= n {
            let kk = k - n;
            assert(no[k] == o[kk]);
            assert(np[k] == shift_parents(ps, n)[kk]);
            if kk == 0 {
                assert(o[0] == c);
                assert(no[0] == id);
            } else {
                assert(0 <= ps[kk] < kk);
                assert(prev[o[ps[kk]].key()].has_child(o[kk]));
                assert(prev.contains_key(o[ps[kk]].key()));
                assert(no[np[k]] == o[ps[kk]]);
            }
        } else {
            assert(no[k] == order[k]);
            assert(np[k] == parents[k]);
            assert(no[np[k]] == order[parents[k]]);
        }
    }
    assert forall|j: int, x: StyleId| 0 < j < no.len() && #[trigger] before[no[j].key()].has_child(x) implies !next.contains_key(
        x.key(),
    ) by {
        if j < n {
            assert(no[j] == order[j]);
            assert(!prev.contains_key(x.key()));
        } else {
            assert(no[j] == o[j - n]);
            assert(prev.contains_key(o[j - n].key()));
            assert(prev[o[j - n].key()] == before[o[j - n].key()]);
        }
    }
    assert(next.dom() =~= before.dom() - keys_of(no)) by {
        assert forall|k: u64| keys_of(no).contains(k) <==> keys_of(order).contains(k) || keys_of(o).contains(k) by {
            if keys_of(no).contains(k) {
                let i = choose|i: int| 0 <= i < no.len() && (#[trigger] no[i]).key() == k;
                if i < n {
                    assert(order[i] == no[i]);
                } else {
                    assert(o[i - n] == no[i]);
                }
            }
            if keys_of(order).contains(k) {
                let i = choose|i: int| 0 <= i < order.len() && (#[trigger] order[i]).key() == k;
                assert(no[i] == order[i]);
            }
            if keys_of(o).contains(k) {
                let i = choose|i: int| 0 <= i < o.len() && (#[trigger] o[i]).key() == k;
                assert(no[i + n] == o[i]);
            }
        }
    }
    assert(!next.contains_key(c.key())) by {
        if prev.contains_key(c.key()) {
            assert(o[0] == c);
            assert(keys_of(o).contains(c.key()));
        }
    }
}

proof fn lemma_finish_removal(before: Map<u64, Style>, after: Map<u64, Style>, id: StyleId, order: Seq<StyleId>, parents: Seq<int>)
    requires
        partial_removal(before, after, id, order, parents),
        forall|c: StyleId| #[trigger] before[id.key()].has_child(c) ==> !after.contains_key(c.key()),
    ensures
        removal_order(before, after, id, order, parents),
{
    assert forall|j: int, c: StyleId| 0 <= j < order.len() && #[trigger] before[order[j].key()].has_child(c) implies !after.contains_key(
        c.key(),
    ) by {
        if j == 0 {
            assert(order[0] == id);
        }
    }
}

/// Whether `applied` holds `f`.
fn contains_field(applied: &Vec<FieldKey>, f: FieldKey) -> (r: bool)
    ensures
        r == applied@.contains(f),
{
    let mut i: usize = 0;
    while i < applied.len()
        invariant
            i <= applied@.len(),
            forall|j: int| 0 <= j < i ==> applied@[j] != f,
        decreases applied@.len() - i,
    {
        if applied[i] == f {
            return true;
        }
        i = i + 1;
    }
    false
}

/// Central style manager: the committed nodes, the builder for the
/// open scope, and the ids.
pub struct Styles {
    styles: StyleNodes,
    style_builder: StyleBuilder,
    current_id: StyleId,
    id_generator: IdGenerator,
}

impl Styles {
    /// The committed nodes, keyed by [`StyleId::key`].
    pub closed spec fn nodes(self) -> Map<u64, Style> {
        style_node_entries(self.styles)
    }

    pub open spec fn has(self, id: StyleId) -> bool {
        self.nodes().contains_key(id.key())
    }

    pub open spec fn node(self, id: StyleId) -> Style {
        self.nodes()[id.key()]
    }

    /// The id the open scope commits under.
    pub closed spec fn current(self) -> StyleId {
        self.current_id
    }

    /// The queued changes of the open scope.
    pub closed spec fn builder(self) -> StyleBuilder {
        self.style_builder
    }

    /// The id generator.
    pub closed spec fn ids(self) -> IdGenerator {
        self.id_generator
    }

    /// The next commit can draw a fresh id.
    /// A well-formed store holds finitely many nodes: at least one when
    /// `a` is committed, and at least two when `b` is committed too and
    /// differs from `a`.
    pub proof fn lemma_count(self, a: StyleId, b: StyleId)
        requires
            self.wf(),
        ensures
            self.nodes().dom().finite(),
            self.has(a) ==> self.nodes().len() >= 1,
            self.has(a) && self.has(b) && a != b ==> self.nodes().len() >= 2,
    {
        broadcast use StyleId::lemma_key_injective;
        let d = self.nodes().dom();
        if self.has(a) {
            vstd::set_lib::lemma_len_subset(set![a.key()], d);
            assert(set![a.key()].len() == 1);
            if self.has(b) && a != b {
                assert(set![a.key(), b.key()].len() == 2) by {
                    assert(set![a.key(), b.key()] =~= set![a.key()].insert(b.key()));
                }
                vstd::set_lib::lemma_len_subset(set![a.key(), b.key()], d);
            }
        }
    }

    pub open spec fn can_commit(self) -> bool {
        self.ids().can_issue()
    }

    /// Every committed node and the open id are live in the generator,
    /// the open id is not committed yet, and every node is well formed.
    pub closed spec fn wf(self) -> bool {
        &&& self.wf_nodes()
        &&& self.style_builder.wf()
        &&& self.ids().is_live(self.current_id.gen_id())
        &&& !self.has(self.current_id)
    }

    /// The nodes are finitely many, each live and well formed, under a
    /// generator whose bookkeeping holds.
    closed spec fn wf_nodes(self) -> bool {
        &&& self.nodes().dom().finite()
        &&& self.ids().fresh_ok()
        &&& forall|id: StyleId| #[trigger] self.has(id) ==> self.ids().is_live(id.gen_id()) && self.node(id).wf()
    }

    proof fn lemma_live_distinct(g: IdGenerator, a: GenId, b: GenId)
        requires
            g.is_live(a),
            g.is_live(b),
            a.slot() == b.slot(),
        ensures
            a == b,
    {
        broadcast use group_gen_id;
        assert(a.gen() == b.gen());
        assert(GenId::spec_from_raw(a.slot(), a.gen()) == a);
        assert(GenId::spec_from_raw(b.slot(), b.gen()) == b);
    }

    /// An empty store with its first id open.
    pub fn new() -> (r: Styles)
        ensures
            r.wf(),
            r.nodes().dom().is_empty(),
            r.builder().entries().len() == 0,
            r.can_commit(),
    {
        let mut id_generator = IdGenerator::new();
        let first = id_generator.new_id();
        let r = Styles {
            styles: style_nodes_new(),
            style_builder: StyleBuilder::new(),
            current_id: StyleId::from_gen(first),
            id_generator,
        };
        proof {
            assert(r.nodes().dom() =~= Set::empty());
        }
        r
    }

    /// Returns the id the open scope will commit under.
    pub fn current_id(&self) -> (r: StyleId)
        ensures
            r == self.current(),
    {
        self.current_id
    }

    /// Returns `true` when changes are queued that must be committed
    /// before the next element is created.
    pub fn should_commit(&self) -> (r: bool)
        ensures
            r == (self.builder().entries().len() > 0),
    {
        !self.style_builder.is_empty()
    }

    /// Returns `true` when the next commit can draw a fresh id.
    pub fn can_commit_now(&self) -> (r: bool)
        ensures
            r == self.can_commit(),
    {
        self.id_generator.unused_len() > 0 || self.id_generator.next_slot_value() < u32::MAX
    }

    /// Discards every queued change.
    pub fn clear_builder(&mut self)
        requires
            old(self).wf(),
        ensures
            final(self).wf(),
            final(self).builder().entries().len() == 0,
            final(self).nodes() == old(self).nodes(),
            final(self).current() == old(self).current(),
            final(self).can_commit() == old(self).can_commit(),
    {
        self.style_builder.clear();
        proof {
            assert(self.nodes() == old(self).nodes());
            assert forall|id: StyleId| #[trigger] self.has(id) implies self.ids().is_live(id.gen_id())
                && self.node(id).wf() by {
                assert(old(self).has(id));
            }
        }
    }

    /// Queues field `field` of type `t` in the open scope and returns
    /// where its value is to be stored.
    pub fn set(&mut self, t: TypeKey, field: FieldKey) -> (r: StyleValueId)
        requires
            old(self).wf(),
        ensures
            final(self).wf(),
            r == (StyleValueId { style: old(self).current(), field }),
            final(self).builder().fields_for(t) == (if old(self).builder().fields_for(t).contains(field) {
                old(self).builder().fields_for(t)
            } else {
                old(self).builder().fields_for(t).push(field)
            }),
            forall|u: TypeKey| u != t ==> #[trigger] final(self).builder().fields_for(u) == old(self).builder().fields_for(u),
            final(self).builder().entries().len() > 0,
            final(self).nodes() == old(self).nodes(),
            final(self).current() == old(self).current(),
            final(self).can_commit() == old(self).can_commit(),
    {
        self.style_builder.insert(t, field);
        proof {
            assert(self.nodes() == old(self).nodes());
            assert forall|id: StyleId| #[trigger] self.has(id) implies self.ids().is_live(id.gen_id())
                && self.node(id).wf() by {
                assert(old(self).has(id));
            }
        }
        StyleValueId::new(self.current_id, field)
    }

    /// Returns the number of committed nodes.
    pub fn len(&self) -> (r: usize)
        ensures
            r == self.nodes().len(),
    {
        style_nodes_len(&self.styles)
    }

    /// Returns the committed node `id`, if present.
    pub fn get(&self, id: &StyleId) -> (r: Option<&Style>)
        requires
            self.wf(),
        ensures
            r is Some <==> self.has(*id),
            r matches Some(s) ==> *s == self.node(*id) && s.wf(),
    {
        let r = style_nodes_get(&self.styles, id.to_key());
        proof {
            if r is Some {
                assert(self.has(*id));
            }
        }
        r
    }

    /// Puts `child` in the first empty child slot of `parent`, if
    /// `parent` is committed and has a free slot.
    fn add_child_to_style(&mut self, parent_id: StyleId, child_id: StyleId)
        requires
            old(self).wf_nodes(),
        ensures
            final(self).wf_nodes(),
            final(self).nodes() == (if old(self).has(parent_id) {
                old(self).nodes().insert(parent_id.key(), old(self).node(parent_id).spec_add_child(child_id))
            } else {
                old(self).nodes()
            }),
            final(self).current() == old(self).current(),
            final(self).builder() == old(self).builder(),
            final(self).ids() == old(self).ids(),
    {
        match style_nodes_remove(&mut self.styles, parent_id.to_key()) {
            None => {},
            Some(mut parent) => {
                proof {
                    parent.lemma_add_child(child_id);
                }
                if parent.children[0].is_none() {
                    parent.children = [Some(child_id), parent.children[1]];
                } else if parent.children[1].is_none() {
                    parent.children = [parent.children[0], Some(child_id)];
                }
                proof {
                    assert(parent == old(self).node(parent_id).spec_add_child(child_id));
                }
                style_nodes_insert(&mut self.styles, parent_id.to_key(), parent);
            },
        }
        proof {
            broadcast use StyleId::lemma_key_injective;
            assert(self.nodes().dom() =~= old(self).nodes().dom());
            assert forall|id: StyleId| #[trigger] self.has(id) implies self.ids().is_live(id.gen_id())
                && self.node(id).wf() by {
                assert(old(self).has(id));
            }
        }
    }

    /// Empties the child slot of `parent_id` that names `child_id`, if
    /// `parent_id` is committed.
    fn free_child_slot(&mut self, parent_id: StyleId, child_id: StyleId)
        requires
            old(self).wf_nodes(),
        ensures
            final(self).wf_nodes(),
            final(self).nodes() == free_slot_in(old(self).nodes(), Some(parent_id), child_id),
            final(self).current() == old(self).current(),
            final(self).builder() == old(self).builder(),
            final(self).ids() == old(self).ids(),
    {
        match style_nodes_remove(&mut self.styles, parent_id.to_key()) {
            None => {
                proof {
                    assert(self.nodes() =~= old(self).nodes());
                }
            },
            Some(mut parent) => {
                proof {
                    parent.lemma_free_slot(child_id);
                }
                let first = if parent.children[0] == Some(child_id) {
                    None
                } else {
                    parent.children[0]
                };
                let second = if parent.children[1] == Some(child_id) {
                    None
                } else {
                    parent.children[1]
                };
                parent.children = [first, second];
                proof {
                    assert(parent == old(self).node(parent_id).spec_free_slot(child_id));
                }
                style_nodes_insert(&mut self.styles, parent_id.to_key(), parent);
                proof {
                    assert(self.nodes() =~= old(self).nodes().insert(
                        parent_id.key(),
                        old(self).nodes()[parent_id.key()].spec_free_slot(child_id),
                    ));
                }
            },
        }
        proof {
            broadcast use StyleId::lemma_key_injective;
            assert(self.nodes().dom() =~= old(self).nodes().dom());
            assert forall|id: StyleId| #[trigger] self.has(id) implies self.ids().is_live(id.gen_id())
                && self.node(id).wf() by {
                assert(old(self).has(id));
                if id.key() == parent_id.key() {
                    old(self).node(id).lemma_free_slot(child_id);
                }
            }
        }
    }

    /// Commits the queued changes into a new node that inherits from
    /// `parent_id`, links it under its parent, and opens a fresh id.
    pub fn commit_styles(&mut self, parent_id: Option<StyleId>)
        requires
            old(self).wf(),
            old(self).can_commit(),
        ensures
            final(self).wf(),
            final(self).builder().entries().len() == 0,
            final(self).current().gen_id() == old(self).ids().spec_next_id(),
            !old(self).has(final(self).current()),
            final(self).has(old(self).current()),
            forall|t: TypeKey| #[trigger] final(self).node(old(self).current()).fields_of(t) == old(self).builder().fields_for(t),
            final(self).node(old(self).current()).parent() == parent_id,
            parent_id != Some(old(self).current()) ==> final(self).node(old(self).current()).child_slot(0) is None
                && final(self).node(old(self).current()).child_slot(1) is None,
            forall|id: StyleId| id != old(self).current() ==> #[trigger] final(self).has(id) == old(self).has(id),
            forall|id: StyleId|
                id != old(self).current() && Some(id) != parent_id && #[trigger] old(self).has(id) ==> final(self).node(id)
                    == old(self).node(id),
            forall|p: StyleId|
                parent_id == Some(p) && p != old(self).current() && #[trigger] old(self).has(p) ==> final(self).node(p)
                    == old(self).node(p).spec_add_child(old(self).current()),
    {
        broadcast use StyleId::lemma_key_injective;
        let committed_id = self.current_id;
        let mut builder = StyleBuilder::new();
        core::mem::swap(&mut builder, &mut self.style_builder);
        let style = builder.build(parent_id);
        style_nodes_insert(&mut self.styles, committed_id.to_key(), style);
        proof {
            assert forall|id: StyleId| #[trigger] self.has(id) implies self.ids().is_live(id.gen_id())
                && self.node(id).wf() by {
                if id != committed_id {
                    assert(old(self).has(id));
                }
            }
        }
        let ghost after_insert = self.nodes();
        assert(self.wf_nodes());
        if let Some(parent) = parent_id {
            self.add_child_to_style(parent, committed_id);
        }
        let ghost before_new = self.ids();
        let ghost s1 = *self;
        assert(s1.wf_nodes());
        let next = self.id_generator.new_id();
        self.current_id = StyleId::from_gen(next);
        proof {
            assert(!before_new.is_live(next));
            assert forall|id: StyleId| #[trigger] self.has(id) implies self.ids().is_live(id.gen_id())
                && self.node(id).wf() by {
                assert(s1.has(id));
                assert(before_new.is_live(id.gen_id()));
            }
            assert(!self.has(self.current_id)) by {
                if self.has(self.current_id) {
                    assert(s1.has(self.current_id));
                    assert(before_new.is_live(next));
                }
            }
            if let Some(p) = parent_id {
                if p != committed_id && old(self).has(p) {
                    assert(after_insert[p.key()] == old(self).node(p));
                }
                if p == committed_id {
                    after_insert[committed_id.key()].lemma_add_child(committed_id);
                }
            }
        }
    }


    /// Removes the subtree under one child slot of a node being
    /// removed, extending the removal under way.
    fn remove_child_slot(
        &mut self,
        slot: Option<StyleId>,
        Ghost(before): Ghost<Map<u64, Style>>,
        Ghost(id): Ghost<StyleId>,
        Ghost(order): Ghost<Seq<StyleId>>,
        Ghost(parents): Ghost<Seq<int>>,
    ) -> (res: Ghost<(Seq<StyleId>, Seq<int>)>)
        requires
            old(self).wf(),
            partial_removal(before, old(self).nodes(), id, order, parents),
            slot matches Some(c) ==> before[id.key()].has_child(c),
        ensures
            final(self).wf(),
            partial_removal(before, final(self).nodes(), id, res@.0, res@.1),
            slot matches Some(c) ==> !final(self).nodes().contains_key(c.key()),
            final(self).nodes().dom().subset_of(old(self).nodes().dom()),
            final(self).current() == old(self).current(),
            final(self).builder() == old(self).builder(),
            final(self).ids().current() == old(self).ids().current(),
            final(self).ids().next_slot() == old(self).ids().next_slot(),
            res@.0.len() >= order.len(),
            res@.0.take(order.len() as int) == order,
            final(self).ids().unused() == old(self).ids().unused() + style_gen_ids(res@.0.skip(order.len() as int)),
        decreases old(self).nodes().len(), 2nat,
    {
        match slot {
            None => {
                proof {
                    assert(order.take(order.len() as int) =~= order);
                    assert(old(self).ids().unused() + style_gen_ids(order.skip(order.len() as int)) =~= old(self).ids().unused());
                }
                Ghost((order, parents))
            },
            Some(c) => {
                let ghost prev = self.nodes();
                let (_, sub) = self.remove_rec(c);
                proof {
                    lemma_extend_removal(before, prev, self.nodes(), id, order, parents, c, sub@.0, sub@.1);
                    assert((order + sub@.0).take(order.len() as int) =~= order);
                    assert((order + sub@.0).skip(order.len() as int) =~= sub@.0);
                }
                Ghost((order + sub@.0, parents + shift_parents(sub@.1, order.len() as int)))
            },
        }
    }

    /// Removes node `id` and, through the child slots, every node below
    /// it, recycling each removed id. Also returns the removal order and,
    /// for each removed node after the first, the position of its parent
    /// in that order.
    fn remove_rec(&mut self, id: StyleId) -> (res: (bool, Ghost<(Seq<StyleId>, Seq<int>)>))
        requires
            old(self).wf(),
        ensures
            final(self).wf(),
            res.0 == old(self).has(id),
            removal_order(old(self).nodes(), final(self).nodes(), id, res.1@.0, res.1@.1),
            final(self).current() == old(self).current(),
            final(self).builder() == old(self).builder(),
            final(self).ids().current() == old(self).ids().current(),
            final(self).ids().next_slot() == old(self).ids().next_slot(),
            final(self).ids().unused() == old(self).ids().unused() + style_gen_ids(res.1@.0),
            !res.0 ==> final(self).ids() == old(self).ids(),
        decreases old(self).nodes().len(), 1nat,
    {
        broadcast use StyleId::lemma_key_injective;
        let key = id.to_key();
        let removed = style_nodes_remove(&mut self.styles, key);
        match removed {
            None => {
                proof {
                    assert(self.nodes() =~= old(self).nodes());
                    assert forall|x: StyleId| #[trigger] self.has(x) implies self.ids().is_live(x.gen_id())
                        && self.node(x).wf() by {
                        assert(old(self).has(x));
                    }
                    assert(keys_of(Seq::<StyleId>::empty()) =~= Set::empty());
                    assert(old(self).ids().unused() + style_gen_ids(Seq::<StyleId>::empty()) =~= old(self).ids().unused());
                    assert(self.nodes().dom() =~= old(self).nodes().dom() - keys_of(Seq::<StyleId>::empty()));
                }
                (false, Ghost((Seq::empty(), Seq::empty())))
            },
            Some(style) => {
                let ghost before = old(self).nodes();
                let ghost mid_ids = self.ids();
                proof {
                    assert(old(self).has(id));
                    assert(mid_ids.is_live(id.gen_id()));
                }
                self.id_generator.recycle(id.as_gen_id());
                proof {
                    assert forall|x: StyleId| #[trigger] self.has(x) implies self.ids().is_live(x.gen_id())
                        && self.node(x).wf() by {
                        assert(old(self).has(x));
                        assert(x != id);
                        if x.gen_id().slot() == id.gen_id().slot() {
                            Self::lemma_live_distinct(mid_ids, x.gen_id(), id.gen_id());
                        }
                    }
                    if self.current_id.gen_id().slot() == id.gen_id().slot() {
                        Self::lemma_live_distinct(mid_ids, self.current_id.gen_id(), id.gen_id());
                    }
                    assert(self.wf());
                    assert(self.nodes() == before.remove(key));
                    assert(style == before[key]);
                    lemma_start_removal(before, id);
                    assert(self.nodes().len() < old(self).nodes().len());
                }
                let children = style.children();
                let ghost first_order = seq![id];
                let ghost first_parents = seq![0int];
                let r0 = self.remove_child_slot(children[0], Ghost(before), Ghost(id), Ghost(first_order), Ghost(first_parents));
                proof {
                    vstd::set_lib::lemma_len_subset(self.nodes().dom(), before.remove(key).dom());
                }
                let r1 = self.remove_child_slot(children[1], Ghost(before), Ghost(id), Ghost(r0@.0), Ghost(r0@.1));
                proof {
                    assert forall|c: StyleId| #[trigger] before[id.key()].has_child(c) implies !self.nodes().contains_key(
                        c.key(),
                    ) by {}
                    lemma_finish_removal(before, self.nodes(), id, r1@.0, r1@.1);
                    let u0 = old(self).ids().unused();
                    let a = r0@.0;
                    let b = r1@.0;
                    assert(a =~= first_order + a.skip(1));
                    assert(b =~= a + b.skip(a.len() as int));
                    assert(style_gen_ids(a) =~= style_gen_ids(first_order) + style_gen_ids(a.skip(1)));
                    assert(style_gen_ids(b) =~= style_gen_ids(a) + style_gen_ids(b.skip(a.len() as int)));
                    assert(u0.push(id.gen_id()) =~= u0 + style_gen_ids(first_order));
                    assert(self.ids().unused() =~= u0 + style_gen_ids(b));
                }
                (true, r1)
            },
        }
    }

    /// Removes the committed node `id` and every node below it in the
    /// style tree, recycling their ids, and frees the slot that names
    /// `id` on its parent. Returns `true` if `id` was committed.
    pub fn remove(&mut self, id: &StyleId) -> (r: bool)
        requires
            old(self).wf(),
        ensures
            final(self).wf(),
            r == old(self).has(*id),
            exists|order: Seq<StyleId>, parents: Seq<int>, mid: Map<u64, Style>|
                #[trigger] removal_order(old(self).nodes(), mid, *id, order, parents) && final(self).nodes()
                    == free_slot_in(
                    mid,
                    if old(self).has(*id) {
                        old(self).node(*id).parent()
                    } else {
                        None
                    },
                    *id,
                ),
            forall|k: u64| in_style_subtree(old(self).nodes(), *id, k) ==> !final(self).nodes().contains_key(k),
            forall|k: u64|
                old(self).nodes().contains_key(k) && !final(self).nodes().contains_key(k) ==> in_style_subtree(
                    old(self).nodes(),
                    *id,
                    k,
                ),
            shrunk_from(old(self).nodes(), final(self).nodes()),
            closed_under_children(old(self).nodes(), final(self).nodes()),
            final(self).current() == old(self).current(),
            final(self).builder() == old(self).builder(),
            ids_recycled(old(self).ids(), final(self).ids(), old(self).nodes().dom() - final(self).nodes().dom()),
            !r ==> final(self).nodes() == old(self).nodes() && final(self).ids() == old(self).ids(),
    {
        broadcast use StyleId::lemma_key_injective;
        let parent = match style_nodes_get(&self.styles, id.to_key()) {
            Some(style) => style.parent_id,
            None => None,
        };
        let (r, order) = self.remove_rec(*id);
        let ghost mid = self.nodes();
        let ghost pp = if old(self).has(*id) {
            old(self).node(*id).parent()
        } else {
            None
        };
        proof {
            assert(parent == pp);
        }
        if r {
            if let Some(p) = parent {
                self.free_child_slot(p, *id);
            }
        }
        proof {
            let (o, ps) = order@;
            let before = old(self).nodes();
            assert(removal_order(before, mid, *id, o, ps));
            if !r {
                assert(pp is None);
            }
            assert(self.nodes() == free_slot_in(mid, pp, *id));
            assert(self.nodes().dom() =~= mid.dom());
            let gone = before.dom() - self.nodes().dom();
            assert(gone =~= keys_of(o));
            let sg = style_gen_ids(o);
            assert(old(self).ids().unused() + sg == self.ids().unused());
            assert forall|g: GenId| #[trigger] sg.contains(g) <==> gone.contains(g.spec_bits()) by {
                broadcast use group_gen_id;
                if sg.contains(g) {
                    let i = choose|i: int| 0 <= i < sg.len() && sg[i] == g;
                    assert(o[i].key() == g.spec_bits());
                }
                if gone.contains(g.spec_bits()) {
                    let i = choose|i: int| 0 <= i < o.len() && (#[trigger] o[i]).key() == g.spec_bits();
                    assert(o[i].gen_id().spec_bits() == g.spec_bits());
                    assert(sg[i] == o[i].gen_id());
                    assert(sg.contains(sg[i]));
                }
            }
            assert(ids_recycled(old(self).ids(), self.ids(), gone));
            if !r {
                assert(self.nodes() =~= before);
            }
            assert forall|k: u64| before.contains_key(k) && !self.nodes().contains_key(k) implies in_style_subtree(
                before,
                *id,
                k,
            ) by {
                assert(keys_of(o).contains(k));
                let j = choose|j: int| 0 <= j < o.len() && (#[trigger] o[j]).key() == k;
                lemma_removal_in_subtree(before, mid, *id, o, ps, j);
                assert(style_reach(before, *id, k, j as nat));
            }
            assert forall|x: u64, c: StyleId|
                #![trigger before[x].has_child(c), self.nodes().contains_key(x)]
                before.contains_key(x) && !self.nodes().contains_key(x) && before[x].has_child(c) implies !self.nodes().contains_key(
                    c.key(),
                ) by {
                assert(keys_of(o).contains(x));
                let j = choose|j: int| 0 <= j < o.len() && (#[trigger] o[j]).key() == x;
                assert(before[o[j].key()].has_child(c));
            }
            assert(closed_under_children(before, self.nodes()));
            assert(!self.nodes().contains_key(id.key())) by {
                if before.contains_key(id.key()) {
                    assert(keys_of(o).contains(o[0].key()));
                }
            }
            assert forall|k: u64| in_style_subtree(before, *id, k) implies !self.nodes().contains_key(k) by {
                let f = choose|f: nat| #[trigger] style_reach(before, *id, k, f);
                lemma_reach_gone(before, self.nodes(), *id, k, f);
            }
            assert forall|k: u64| #[trigger] self.nodes().contains_key(k) implies before.contains_key(k)
                && node_shrunk(before[k], self.nodes()[k], self.nodes()) by {
                assert(mid.contains_key(k));
                assert(mid[k] == before[k]);
                before[k].lemma_free_slot(*id);
                assert(forall|t: TypeKey| #[trigger] before[k].spec_free_slot(*id).fields_of(t) == before[k].fields_of(t));
            }
        }
        r
    }

    /// Resolves type `t` against the chain that starts at `id`: walking
    /// from `id` towards the root, each field is paired with the first
    /// node that sets it. The caller copies each paired value into the
    /// instance being styled.
    ///
    /// The walk visits at most as many nodes as are committed.
    pub fn resolve(&self, t: TypeKey, id: &StyleId) -> (r: Vec<(FieldKey, StyleId)>)
        requires
            self.wf(),
        ensures
            r@ == resolve_chain(self.nodes(), chain(self.nodes(), *id, self.nodes().len()), t, Seq::empty()),
    {
        let fuel = style_nodes_len(&self.styles);
        let ghost nodes = self.nodes();
        let ghost full = chain(nodes, *id, fuel as nat);
        let mut applied: Vec<FieldKey> = Vec::new();
        let mut out: Vec<(FieldKey, StyleId)> = Vec::new();
        let mut current: Option<StyleId> = Some(*id);
        let mut left: usize = fuel;
        loop
            invariant
                self.wf(),
                nodes == self.nodes(),
                full == chain(nodes, *id, fuel as nat),
                out@ + resolve_chain(
                    nodes,
                    match current {
                        Some(c) => chain(nodes, c, left as nat),
                        None => Seq::empty(),
                    },
                    t,
                    applied@,
                ) == resolve_chain(nodes, full, t, Seq::empty()),
            ensures
                out@ == resolve_chain(nodes, full, t, Seq::empty()),
            decreases left,
        {
            if left == 0 {
                proof {
                    assert(out@ + Seq::empty() =~= out@);
                }
                break;
            }
            let cid = match current {
                Some(c) => c,
                None => {
                    proof {
                        assert(out@ + Seq::empty() =~= out@);
                    }
                    break;
                },
            };
            match self.get(&cid) {
                None => {
                    proof {
                        assert(out@ + Seq::empty() =~= out@);
                    }
                    break;
                },
                Some(style) => {
                    let ghost rest = chain(nodes, cid, left as nat);
                    let ghost tail = match style.parent() {
                        Some(p) => chain(nodes, p, (left - 1) as nat),
                        None => Seq::<StyleId>::empty(),
                    };
                    proof {
                        assert(rest == seq![cid] + tail);
                        assert(rest[0] == cid);
                        assert(rest.drop_first() =~= tail);
                    }
                    let fields = style.get_fields(t);
                    let ghost out0 = out@;
                    let mut k: usize = 0;
                    while k < fields.len()
                        invariant
                            k <= fields@.len(),
                            out@ == out0 + unapplied(fields@.take(k as int), applied@).map_values(
                                |f: FieldKey| (f, cid),
                            ),
                        decreases fields@.len() - k,
                    {
                        let f = fields[k];
                        let seen = contains_field(&applied, f);
                        proof {
                            assert(fields@.take(k + 1).drop_last() =~= fields@.take(k as int));
                            assert(fields@.take(k + 1).last() == f);
                        }
                        if !seen {
                            out.push((f, cid));
                            proof {
                                assert(out@ =~= out0 + unapplied(fields@.take(k + 1), applied@).map_values(
                                    |f: FieldKey| (f, cid),
                                ));
                            }
                        }
                        k = k + 1;
                    }
                    proof {
                        assert(fields@.take(fields@.len() as int) =~= fields@);
                        let prefix = unapplied(fields@, applied@).map_values(|f: FieldKey| (f, cid));
                        assert(resolve_chain(nodes, rest, t, applied@) == prefix + resolve_chain(
                            nodes,
                            tail,
                            t,
                            applied@ + fields@,
                        ));
                        assert(out@ == out0 + prefix);
                    }
                    let ghost applied0 = applied@;
                    let mut j: usize = 0;
                    while j < fields.len()
                        invariant
                            j <= fields@.len(),
                            applied@ == applied0 + fields@.take(j as int),
                        decreases fields@.len() - j,
                    {
                        applied.push(fields[j]);
                        j = j + 1;
                        proof {
                            assert(applied@ =~= applied0 + fields@.take(j as int));
                        }
                    }
                    proof {
                        assert(fields@.take(fields@.len() as int) =~= fields@);
                        assert((out0 + unapplied(fields@, applied0).map_values(|f: FieldKey| (f, cid))) + resolve_chain(
                            nodes,
                            tail,
                            t,
                            applied0 + fields@,
                        ) =~= out0 + (unapplied(fields@, applied0).map_values(|f: FieldKey| (f, cid)) + resolve_chain(
                            nodes,
                            tail,
                            t,
                            applied0 + fields@,
                        )));
                    }
                    current = style.parent_id();
                    left = left - 1;
                },
            }
        }
        out
    }
}


/// The first node of `chain` that sets field `f` of type `t`.
pub open spec fn first_setter(nodes: Map<u64, Style>, chain: Seq<StyleId>, t: TypeKey, f: FieldKey) -> Option<StyleId>
    decreases chain.len(),
{
    if chain.len() == 0 {
        None
    } else if nodes[chain[0].key()].fields_of(t).contains(f) {
        Some(chain[0])
    } else {
        first_setter(nodes, chain.drop_first(), t, f)
    }
}

proof fn lemma_unapplied(fs: Seq<FieldKey>, applied: Seq<FieldKey>)
    ensures
        forall|x: FieldKey| #[trigger] unapplied(fs, applied).contains(x) <==> fs.contains(x) && !applied.contains(x),
        fs.no_duplicates() ==> unapplied(fs, applied).no_duplicates(),
    decreases fs.len(),
{
    if fs.len() > 0 {
        lemma_unapplied(fs.drop_last(), applied);
        let p = unapplied(fs.drop_last(), applied);
        assert forall|x: FieldKey| #[trigger] unapplied(fs, applied).contains(x) <==> fs.contains(x) && !applied.contains(x) by {
            if fs.contains(x) && !fs.drop_last().contains(x) {
                let i = choose|i: int| 0 <= i < fs.len() && fs[i] == x;
                if i < fs.len() - 1 {
                    assert(fs.drop_last()[i] == x);
                }
            }
            if fs.drop_last().contains(x) {
                let i = choose|i: int| 0 <= i < fs.drop_last().len() && fs.drop_last()[i] == x;
                assert(fs[i] == x);
            }
            if !applied.contains(fs.last()) {
                assert(unapplied(fs, applied) == p.push(fs.last()));
                if p.push(fs.last()).contains(x) && x != fs.last() {
                    let i = choose|i: int| 0 <= i < p.push(fs.last()).len() && p.push(fs.last())[i] == x;
                    assert(p[i] == x);
                }
                if p.contains(x) {
                    let i = choose|i: int| 0 <= i < p.len() && p[i] == x;
                    assert(p.push(fs.last())[i] == x);
                }
                assert(p.push(fs.last())[p.len() as int] == fs.last());
            }
        }
        if fs.no_duplicates() {
            assert(fs.drop_last().no_duplicates()) by {
                assert forall|a: int, b: int| 0 <= a < fs.drop_last().len() && 0 <= b < fs.drop_last().len() && a != b implies fs.drop_last()[a] != fs.drop_last()[b] by {
                    assert(fs[a] != fs[b]);
                }
            }
            if !applied.contains(fs.last()) {
                assert(!fs.drop_last().contains(fs.last())) by {
                    if fs.drop_last().contains(fs.last()) {
                        let i = choose|i: int| 0 <= i < fs.drop_last().len() && fs.drop_last()[i] == fs.last();
                        assert(fs[i] == fs[fs.len() - 1]);
                    }
                }
                assert(!p.contains(fs.last()));
                let q = p.push(fs.last());
                assert forall|a: int, b: int| 0 <= a < q.len() && 0 <= b < q.len() && a != b implies q[a] != q[b] by {
                    if a < p.len() && b < p.len() {
                        assert(p[a] != p[b]);
                    } else if a < p.len() {
                        assert(p.contains(p[a]));
                    } else if b < p.len() {
                        assert(p.contains(p[b]));
                    }
                }
            }
        }
    }
}

proof fn lemma_resolve_chain(nodes: Map<u64, Style>, chain: Seq<StyleId>, t: TypeKey, applied: Seq<FieldKey>)
    requires
        forall|k: int| 0 <= k < chain.len() ==> (#[trigger] nodes[chain[k].key()]).fields_of(t).no_duplicates(),
    ensures
        forall|i: int|
            0 <= i < resolve_chain(nodes, chain, t, applied).len() ==> !applied.contains(
                (#[trigger] resolve_chain(nodes, chain, t, applied)[i]).0,
            ) && first_setter(nodes, chain, t, resolve_chain(nodes, chain, t, applied)[i].0) == Some(
                resolve_chain(nodes, chain, t, applied)[i].1,
            ),
        forall|f: FieldKey|
            !applied.contains(f) && (#[trigger] first_setter(nodes, chain, t, f)) is Some ==> exists|i: int|
                0 <= i < resolve_chain(nodes, chain, t, applied).len() && (#[trigger] resolve_chain(
                    nodes,
                    chain,
                    t,
                    applied,
                )[i]).0 == f,
        forall|i: int, j: int|
            0 <= i < j < resolve_chain(nodes, chain, t, applied).len() ==> (#[trigger] resolve_chain(
                nodes,
                chain,
                t,
                applied,
            )[i]).0 != (#[trigger] resolve_chain(nodes, chain, t, applied)[j]).0,
    decreases chain.len(),
{
    if chain.len() > 0 {
        let s = chain[0];
        let fs = nodes[s.key()].fields_of(t);
        let tail = chain.drop_first();
        assert forall|k: int| 0 <= k < tail.len() implies (#[trigger] nodes[tail[k].key()]).fields_of(t).no_duplicates() by {
            assert(tail[k] == chain[k + 1]);
        }
        lemma_resolve_chain(nodes, tail, t, applied + fs);
        lemma_unapplied(fs, applied);
        assert(nodes[chain[0].key()].fields_of(t).no_duplicates());
        let head = unapplied(fs, applied).map_values(|f: FieldKey| (f, s));
        let rest = resolve_chain(nodes, tail, t, applied + fs);
        let out = resolve_chain(nodes, chain, t, applied);
        assert(out == head + rest);
        assert forall|f: FieldKey| (applied + fs).contains(f) <==> applied.contains(f) || fs.contains(f) by {
            if (applied + fs).contains(f) {
                let i = choose|i: int| 0 <= i < (applied + fs).len() && (applied + fs)[i] == f;
                if i < applied.len() {
                    assert(applied[i] == f);
                } else {
                    assert(fs[i - applied.len()] == f);
                }
            }
            if applied.contains(f) {
                let i = choose|i: int| 0 <= i < applied.len() && applied[i] == f;
                assert((applied + fs)[i] == f);
            }
            if fs.contains(f) {
                let i = choose|i: int| 0 <= i < fs.len() && fs[i] == f;
                assert((applied + fs)[applied.len() + i] == f);
            }
        }
        assert forall|i: int| 0 <= i < out.len() implies !applied.contains((#[trigger] out[i]).0) && first_setter(
            nodes,
            chain,
            t,
            out[i].0,
        ) == Some(out[i].1) by {
            if i < head.len() {
                let f = unapplied(fs, applied)[i];
                assert(out[i] == (f, s));
                assert(unapplied(fs, applied).contains(f));
            } else {
                assert(out[i] == rest[i - head.len()]);
                let f = rest[i - head.len()].0;
                assert(!fs.contains(f));
            }
        }
        assert forall|f: FieldKey| !applied.contains(f) && (#[trigger] first_setter(nodes, chain, t, f)) is Some implies exists|i: int|
            0 <= i < out.len() && (#[trigger] out[i]).0 == f by {
            if fs.contains(f) {
                assert(unapplied(fs, applied).contains(f));
                let i = choose|i: int| 0 <= i < unapplied(fs, applied).len() && unapplied(fs, applied)[i] == f;
                assert(out[i] == head[i]);
            } else {
                assert(first_setter(nodes, tail, t, f) is Some);
                let i = choose|i: int| 0 <= i < rest.len() && (#[trigger] rest[i]).0 == f;
                assert(out[head.len() + i] == rest[i]);
            }
        }
        assert forall|i: int, j: int| 0 <= i < j < out.len() implies (#[trigger] out[i]).0 != (#[trigger] out[j]).0 by {
            if j < head.len() {
                assert(unapplied(fs, applied)[i] != unapplied(fs, applied)[j]);
            } else if i < head.len() {
                let f = unapplied(fs, applied)[i];
                assert(unapplied(fs, applied).contains(f));
                assert(out[j] == rest[j - head.len()]);
            } else {
                assert(out[i] == rest[i - head.len()]);
                assert(out[j] == rest[j - head.len()]);
            }
        }
    }
}

proof fn lemma_chain_present(nodes: Map<u64, Style>, id: StyleId, fuel: nat)
    ensures
        forall|k: int| 0 <= k < chain(nodes, id, fuel).len() ==> nodes.contains_key((#[trigger] chain(nodes, id, fuel)[k]).key()),
    decreases fuel,
{
    if fuel > 0 && nodes.contains_key(id.key()) {
        if let Some(p) = nodes[id.key()].parent() {
            lemma_chain_present(nodes, p, (fuel - 1) as nat);
            let c = chain(nodes, id, fuel);
            assert forall|k: int| 0 <= k < c.len() implies nodes.contains_key((#[trigger] c[k]).key()) by {
                if k > 0 {
                    assert(c[k] == chain(nodes, p, (fuel - 1) as nat)[k - 1]);
                }
            }
        }
    }
}

/// Style resolution lets the nearest node win: along the chain from
/// `id` towards the root, every field that some node sets for type `t`
/// is resolved exactly once, to the first node that sets it, and no
/// other field is resolved.
pub proof fn law_nearest_style_wins(styles: Styles, t: TypeKey, id: StyleId, f: FieldKey)
    requires
        styles.wf(),
    ensures
        styles.has(id) ==> {
            let c = chain(styles.nodes(), id, styles.nodes().len());
            &&& c.len() > 0
            &&& c[0] == id
            &&& (styles.node(id).parent() matches Some(p) ==> (styles.has(p) && p != id ==> c.len() > 1 && c[1] == p))
        },
        ({
            let c = chain(styles.nodes(), id, styles.nodes().len());
            let out = resolve_chain(styles.nodes(), c, t, Seq::empty());
            &&& forall|i: int| 0 <= i < out.len() && (#[trigger] out[i]).0 == f ==> first_setter(styles.nodes(), c, t, f) == Some(out[i].1)
            &&& first_setter(styles.nodes(), c, t, f) is Some <==> exists|i: int| 0 <= i < out.len() && (#[trigger] out[i]).0 == f
            &&& forall|i: int, j: int| 0 <= i < j < out.len() ==> (#[trigger] out[i]).0 != (#[trigger] out[j]).0
        }),
{
    let nodes = styles.nodes();
    let c = chain(nodes, id, nodes.len());
    if styles.has(id) {
        let p = nodes[id.key()].parent();
        if let Some(q) = p {
            styles.lemma_count(id, q);
            if styles.has(q) && q != id {
                assert(chain(nodes, q, (nodes.len() - 1) as nat)[0] == q);
            }
        } else {
            styles.lemma_count(id, id);
        }
    }
    lemma_chain_present(nodes, id, nodes.len());
    assert forall|k: int| 0 <= k < c.len() implies (#[trigger] nodes[c[k].key()]).fields_of(t).no_duplicates() by {
        styles.lemma_node_wf(c[k]);
    }
    lemma_resolve_chain(nodes, c, t, Seq::empty());
}

impl Styles {
    /// Every committed node is well formed.
    pub proof fn lemma_node_wf(self, id: StyleId)
        requires
            self.wf(),
            self.has(id),
        ensures
            forall|t: TypeKey| (#[trigger] self.node(id).fields_of(t)).no_duplicates(),
    {
        assert(self.node(id).wf());
    }
}

/// The chain from `a[0]` follows any run `a` of present nodes, each the
/// parent of the one before it, while the fuel lasts; when the run ends
/// at a node without a parent, so does the chain.
proof fn lemma_chain_follows(nodes: Map<u64, Style>, a: Seq<StyleId>, fuel: nat)
    requires
        a.len() > 0,
        fuel >= a.len(),
        forall|k: int| 0 <= k < a.len() ==> nodes.contains_key((#[trigger] a[k]).key()),
        forall|k: int| 0 <= k < a.len() - 1 ==> (#[trigger] nodes[a[k].key()]).parent() == Some(a[k + 1]),
    ensures
        chain(nodes, a[0], fuel).len() >= a.len(),
        forall|k: int| 0 <= k < a.len() ==> chain(nodes, a[0], fuel)[k] == #[trigger] a[k],
        nodes[a.last().key()].parent() is None ==> chain(nodes, a[0], fuel).len() == a.len(),
    decreases a.len(),
{
    let c = chain(nodes, a[0], fuel);
    if a.len() == 1 {
        assert(nodes.contains_key(a[0].key()));
    } else {
        let b = a.drop_first();
        assert forall|k: int| 0 <= k < b.len() implies nodes.contains_key((#[trigger] b[k]).key()) by {
            assert(b[k] == a[k + 1]);
        }
        assert forall|k: int| 0 <= k < b.len() - 1 implies (#[trigger] nodes[b[k].key()]).parent() == Some(b[k + 1]) by {
            assert(b[k] == a[k + 1]);
            assert(b[k + 1] == a[k + 2]);
            assert(nodes[a[k + 1].key()].parent() == Some(a[k + 1 + 1]));
        }
        lemma_chain_follows(nodes, b, (fuel - 1) as nat);
        assert(nodes[a[0int].key()].parent() == Some(a[0int + 1]));
        assert(nodes.contains_key(a[0].key()));
        assert(c == seq![a[0]] + chain(nodes, b[0], (fuel - 1) as nat));
        assert forall|k: int| 0 <= k < a.len() implies c[k] == #[trigger] a[k] by {
            if k > 0 {
                assert(c[k] == chain(nodes, b[0], (fuel - 1) as nat)[k - 1]);
                assert(b[k - 1] == a[k]);
            }
        }
        assert(a.last() == b.last());
    }
}

/// Distinct present nodes are no more than the nodes there are.
proof fn lemma_distinct_present_count(nodes: Map<u64, Style>, a: Seq<StyleId>)
    requires
        nodes.dom().finite(),
        a.no_duplicates(),
        forall|k: int| 0 <= k < a.len() ==> nodes.contains_key((#[trigger] a[k]).key()),
    ensures
        a.len() <= nodes.len(),
{
    broadcast use StyleId::lemma_key_injective;
    let ks = a.map_values(|x: StyleId| x.key());
    assert forall|i: int, j: int| 0 <= i < ks.len() && 0 <= j < ks.len() && i != j implies ks[i] != ks[j] by {
        assert(a[i] != a[j]);
    }
    assert(ks.no_duplicates());
    ks.unique_seq_to_set();
    assert forall|x: u64| ks.to_set().contains(x) implies nodes.dom().contains(x) by {
        let i = choose|i: int| 0 <= i < ks.len() && ks[i] == x;
        assert(nodes.contains_key(a[i].key()));
    }
    vstd::set_lib::lemma_len_subset(ks.to_set(), nodes.dom());
}

/// Resolution reaches every ancestor: for any run `a` of distinct
/// committed nodes, each the parent of the one before it, the chain
/// that [`Styles::resolve`] walks from `a[0]` passes through all of `a`
/// in order, however long the run, and ends with it when its last node
/// has no parent.
pub proof fn law_resolution_reaches_every_ancestor(styles: Styles, a: Seq<StyleId>)
    requires
        styles.wf(),
        a.len() > 0,
        a.no_duplicates(),
        forall|k: int| 0 <= k < a.len() ==> styles.has(#[trigger] a[k]),
        forall|k: int| 0 <= k < a.len() - 1 ==> (#[trigger] styles.node(a[k])).parent() == Some(a[k + 1]),
    ensures
        ({
            let c = chain(styles.nodes(), a[0], styles.nodes().len());
            &&& c.len() >= a.len()
            &&& forall|k: int| 0 <= k < a.len() ==> c[k] == #[trigger] a[k]
            &&& styles.node(a.last()).parent() is None ==> c == a
        }),
{
    let nodes = styles.nodes();
    styles.lemma_count(a[0], a[0]);
    lemma_distinct_present_count(nodes, a);
    lemma_chain_follows(nodes, a, nodes.len());
    let c = chain(nodes, a[0], nodes.len());
    if styles.node(a.last()).parent() is None {
        assert(c =~= a);
    }
}

} // verus!
