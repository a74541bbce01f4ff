//! The element hierarchy: per-element metadata (parent link and
//! primary style), the set of elements awaiting layout, and subtree
//! removal.
//!
//! Element values themselves are typed and live with the caller, keyed
//! by [`ElementId`]; the caller tells this module an element's children
//! through [`ChildLists`].
use std::collections::HashMap;
use vstd::prelude::*;

use crate::collections::{
    IdSet, MetaNodes, id_set_contains, id_set_drain, id_set_insert, id_set_members, id_set_new,
    meta_node_entries, meta_nodes_get, meta_nodes_insert, meta_nodes_len, meta_nodes_new,
    meta_nodes_remove,
};
use crate::id::{GenId, IdGenerator, group_gen_id, ids_recycled, lemma_recycled_compose, lemma_recycled_none};
use crate::style::{
    Style, StyleId, Styles, closed_under_children, in_style_subtree, lemma_reach_gone, lemma_reach_submap,
    lemma_shrink_compose, lemma_shrink_refl, lemma_shrunk_children, shrunk_from, style_reach,
};

verus! {

broadcast use vstd::std_specs::hash::group_hash_axioms;

/// Identifier of an element instance.
#[derive(Debug, Clone, Copy, PartialEq, Eq, Hash, Structural)]
pub struct ElementId(GenId);

impl ElementId {
    /// The generational id underneath.
    pub closed spec fn gen_id(self) -> GenId {
        self.0
    }

    /// The key of this id in the metadata map.
    pub open spec fn key(self) -> u64 {
        self.gen_id().spec_bits()
    }

    pub broadcast proof fn lemma_key_injective(a: ElementId, b: ElementId)
        ensures
            #![trigger a.key(), b.key()]
            a.key() == b.key() ==> a == b,
    {
        broadcast use group_gen_id;
    }

    /// A sentinel id that never refers to a live element.
    pub fn placeholder() -> (r: ElementId)
        ensures
            r.gen_id().slot() == u32::MAX,
    {
        ElementId(GenId::placeholder())
    }

    /// The key of this id in the metadata map.
    pub fn to_key(&self) -> (r: u64)
        ensures
            r == self.key(),
    {
        self.0.to_bits()
    }

    /// The id whose key is `key`.
    pub fn from_key(key: u64) -> (r: ElementId)
        ensures
            r.key() == key,
    {
        ElementId(GenId::from_bits(key))
    }
}

/// What the hierarchy records of one element.
#[derive(Debug, Clone, Copy, PartialEq, Eq, Structural)]
pub struct ElementMeta {
    /// The element whose children include this one, once one does.
    pub parent_id: Option<ElementId>,
    /// The first style committed while this element was being built;
    /// it and the styles below it go when the element goes.
    pub primary_style: Option<StyleId>,
}

/// The children each stored element enumerates, in order, as the
/// owner of the element values last reported them.
pub struct ChildLists {
    lists: HashMap<u64, Vec<ElementId>>,
}

impl ChildLists {
    /// The children of element `id`, in order; none if nothing was
    /// reported for it.
    pub closed spec fn spec_children_of(&self, id: ElementId) -> Seq<ElementId> {
        if self.lists@.contains_key(id.key()) {
            self.lists@[id.key()]@
        } else {
            Seq::empty()
        }
    }

    /// No element has children.
    pub fn new() -> (r: ChildLists)
        ensures
            forall|id: ElementId| #[trigger] r.spec_children_of(id) == Seq::<ElementId>::empty(),
    {
        ChildLists { lists: HashMap::new() }
    }

    /// Records `children` as the children of `id`.
    pub fn set_children(&mut self, id: ElementId, children: Vec<ElementId>)
        ensures
            final(self).spec_children_of(id) == children@,
            forall|x: ElementId| x != id ==> #[trigger] final(self).spec_children_of(x) == old(self).spec_children_of(x),
    {
        broadcast use ElementId::lemma_key_injective;
        self.lists.insert(id.to_key(), children);
    }

    /// Forgets the children of `id`.
    pub fn forget(&mut self, id: &ElementId)
        ensures
            final(self).spec_children_of(*id) == Seq::<ElementId>::empty(),
            forall|x: ElementId| x != *id ==> #[trigger] final(self).spec_children_of(x) == old(self).spec_children_of(x),
    {
        broadcast use ElementId::lemma_key_injective;
        self.lists.remove(&id.to_key());
    }

    /// Returns the children of element `id`, in order.
    pub fn children_of(&self, id: &ElementId) -> (r: Vec<ElementId>)
        ensures
            r@ == self.spec_children_of(*id),
    {
        let mut r: Vec<ElementId> = Vec::new();
        match self.lists.get(&id.to_key()) {
            Some(list) => {
                let mut i: usize = 0;
                while i < list.len()
                    invariant
                        i <= list@.len(),
                        r@ == list@.take(i as int),
                    decreases list@.len() - i,
                {
                    r.push(list[i]);
                    proof {
                        assert(list@.take(i + 1) =~= list@.take(i as int).push(list@[i as int]));
                    }
                    i = i + 1;
                }
                proof {
                    assert(list@.take(list@.len() as int) =~= list@);
                }
            },
            None => {},
        }
        r
    }
}

/// The generational ids of the elements in `order`.
pub open spec fn element_gen_ids(order: Seq<ElementId>) -> Seq<GenId> {
    order.map_values(|e: ElementId| e.gen_id())
}

/// The keys of the ids in `order`.
pub open spec fn element_keys(order: Seq<ElementId>) -> Set<u64> {
    Set::new(|k: u64| exists|i: int| 0 <= i < order.len() && (#[trigger] order[i]).key() == k)
}

/// A subtree removal under way: `id` and the elements after it in
/// `order` are gone from `now`, each a child (per `children`) of an
/// earlier one whose position `parents` gives; every child of a removed
/// element after the first is gone as well.
pub open spec fn element_partial_removal(
    before: Map<u64, ElementMeta>,
    now: Map<u64, ElementMeta>,
    source: ChildLists,
    id: ElementId,
    order: Seq<ElementId>,
    parents: Seq<int>,
) -> bool {
    &&& order.len() > 0
    &&& order[0] == id
    &&& order.no_duplicates()
    &&& parents.len() == order.len()
    &&& forall|k: int| 0 <= k < order.len() ==> before.contains_key((#[trigger] order[k]).key())
    &&& forall|k: int|
        0 < k < order.len() ==> 0 <= #[trigger] parents[k] < k && source.spec_children_of(order[parents[k]]).contains(order[k])
    &&& forall|j: int, c: ElementId|
        0 < j < order.len() && #[trigger] source.spec_children_of(order[j]).contains(c) ==> !now.contains_key(c.key())
    &&& now.dom() == before.dom() - element_keys(order)
    &&& forall|k: u64| #[trigger] now.contains_key(k) ==> now[k] == before[k]
}

/// A finished subtree removal: as above, with nothing removed when `id`
/// was absent, and no child of `id` left either.
pub open spec fn element_removal(
    before: Map<u64, ElementMeta>,
    after: Map<u64, ElementMeta>,
    source: ChildLists,
    id: ElementId,
    order: Seq<ElementId>,
    parents: Seq<int>,
) -> bool {
    if before.contains_key(id.key()) {
        &&& element_partial_removal(before, after, source, id, order, parents)
        &&& forall|c: ElementId| #[trigger] source.spec_children_of(id).contains(c) ==> !after.contains_key(c.key())
    } else {
        &&& order.len() == 0
        &&& parents.len() == 0
        &&& after == before
    }
}

/// Whether no element above position `k` of a removal walk, following
/// the `parents` links back to the start, has a primary style.
pub open spec fn unstyled_above(metas: Map<u64, ElementMeta>, order: Seq<ElementId>, parents: Seq<int>, k: int) -> bool
    decreases k,
{
    if 0 < k < order.len() && 0 <= parents[k] < k {
        metas[order[parents[k]].key()].primary_style is None && unstyled_above(metas, order, parents, parents[k])
    } else {
        k == 0
    }
}

/// Whether the primary style `metas` records for `x`, if any, is no
/// longer in `styles`.
pub open spec fn primary_style_gone(metas: Map<u64, ElementMeta>, styles: Styles, x: ElementId) -> bool {
    match metas[x.key()].primary_style {
        Some(p) => !styles.has(p),
        None => true,
    }
}

/// Whether the primary style `metas` records for `x` has node key `k`
/// in its style subtree in `nodes`.
pub open spec fn primary_reaches(metas: Map<u64, ElementMeta>, nodes: Map<u64, Style>, x: ElementId, k: u64) -> bool {
    match metas[x.key()].primary_style {
        Some(p) => in_style_subtree(nodes, p, k),
        None => false,
    }
}

/// Whether node key `k` lies under the primary style of one of the
/// elements of `order`.
pub open spec fn removed_under(metas: Map<u64, ElementMeta>, order: Seq<ElementId>, nodes: Map<u64, Style>, k: u64) -> bool {
    exists|j: int| 0 <= j < order.len() && #[trigger] primary_reaches(metas, nodes, order[j], k)
}

/// Extending a walk leaves the positions already in it as they were.
proof fn lemma_unstyled_prefix(
    metas: Map<u64, ElementMeta>,
    order: Seq<ElementId>,
    parents: Seq<int>,
    o: Seq<ElementId>,
    sp: Seq<int>,
    k: int,
)
    requires
        0 <= k < order.len(),
        parents.len() == order.len(),
        forall|i: int| 0 < i < order.len() ==> 0 <= #[trigger] parents[i] < i,
    ensures
        unstyled_above(metas, order + o, parents + sp, k) == unstyled_above(metas, order, parents, k),
    decreases k,
{
    if k > 0 {
        assert((parents + sp)[k] == parents[k]);
        assert((order + o)[parents[k]] == order[parents[k]]);
        lemma_unstyled_prefix(metas, order, parents, o, sp, parents[k]);
    }
}

/// A position in a subtree walk appended at `order.len()`, under the
/// walk's start, has nothing styled above it exactly when the start has
/// no primary style and nothing above it in the subtree walk is styled.
proof fn lemma_unstyled_shift(
    before: Map<u64, ElementMeta>,
    prev: Map<u64, ElementMeta>,
    order: Seq<ElementId>,
    parents: Seq<int>,
    o: Seq<ElementId>,
    ps: Seq<int>,
    j: int,
)
    requires
        order.len() > 0,
        parents.len() == order.len(),
        0 <= j < o.len(),
        ps.len() == o.len(),
        forall|i: int| 0 < i < o.len() ==> 0 <= #[trigger] ps[i] < i,
        forall|i: int| 0 <= i < o.len() ==> prev.contains_key((#[trigger] o[i]).key()),
        forall|x: u64| #[trigger] prev.contains_key(x) ==> prev[x] == before[x],
    ensures
        unstyled_above(
            before,
            order + o,
            parents + Seq::new(ps.len(), |i: int| if i == 0 { 0 } else { ps[i] + order.len() }),
            order.len() + j,
        ) == (before[order[0].key()].primary_style is None && unstyled_above(prev, o, ps, j)),
    decreases j,
{
    let n = order.len() as int;
    let sp = Seq::new(ps.len(), |i: int| if i == 0 { 0 } else { ps[i] + order.len() });
    let no = order + o;
    let np = parents + sp;
    assert(np[n + j] == sp[j]);
    if j == 0 {
        assert(np[n] == 0);
        assert(no[0] == order[0]);
        assert(unstyled_above(before, no, np, 0));
        assert(unstyled_above(prev, o, ps, 0));
    } else {
        let q = ps[j];
        assert(np[n + j] == q + n);
        assert(no[n + q] == o[q]);
        assert(prev.contains_key(o[q].key()));
        assert(prev[o[q].key()] == before[o[q].key()]);
        lemma_unstyled_shift(before, prev, order, parents, o, ps, q);
        assert(unstyled_above(before, no, np, n + j) == (before[o[q].key()].primary_style is None
            && unstyled_above(before, no, np, n + q)));
        assert(unstyled_above(prev, o, ps, j) == (prev[o[q].key()].primary_style is None && unstyled_above(
            prev,
            o,
            ps,
            q,
        )));
    }
}

proof fn lemma_start_element_removal(before: Map<u64, ElementMeta>, source: ChildLists, id: ElementId)
    requires
        before.contains_key(id.key()),
    ensures
        element_partial_removal(before, before.remove(id.key()), source, id, seq![id], seq![0int]),
{
    let order = seq![id];
    assert(before.remove(id.key()).dom() =~= before.dom() - element_keys(order)) by {
        assert(order[0] == id);
        assert forall|k: u64| element_keys(order).contains(k) implies k == id.key() by {
            let i = choose|i: int| 0 <= i < order.len() && (#[trigger] order[i]).key() == k;
            assert(i == 0);
        }
        assert(element_keys(order).contains(id.key()));
    }
}

proof fn lemma_extend_element_removal(
    before: Map<u64, ElementMeta>,
    prev: Map<u64, ElementMeta>,
    next: Map<u64, ElementMeta>,
    source: ChildLists,
    id: ElementId,
    order: Seq<ElementId>,
    parents: Seq<int>,
    c: ElementId,
    o: Seq<ElementId>,
    ps: Seq<int>,
)
    requires
        element_partial_removal(before, prev, source, id, order, parents),
        source.spec_children_of(id).contains(c),
        element_removal(prev, next, source, c, o, ps),
    ensures
        element_partial_removal(
            before,
            next,
            source,
            id,
            order + o,
            parents + Seq::new(ps.len(), |k: int| if k == 0 { 0 } else { ps[k] + order.len() }),
        ),
        !next.contains_key(c.key()),
        next.dom().subset_of(prev.dom()),
{
    broadcast use ElementId::lemma_key_injective;
    let n = order.len() as int;
    let no = order + o;
    let sp = Seq::new(ps.len(), |k: int| if k == 0 { 0 } else { ps[k] + order.len() });
    let np = parents + sp;
    if !prev.contains_key(c.key()) {
        assert(o =~= Seq::<ElementId>::empty());
        assert(no =~= order);
        assert(np =~= parents);
        assert(next == prev);
    } else {
        assert forall|k: int| 0 <= k < no.len() implies before.contains_key((#[trigger] no[k]).key()) by {
            if k >= n {
                assert(no[k] == o[k - n]);
                assert(prev.contains_key(o[k - n].key()));
            }
        }
        assert(no.no_duplicates()) by {
            assert forall|a: int, b: int| 0 <= a < no.len() && 0 <= b < no.len() && a != b implies no[a] != no[b] by {
                if a < n && b >= n {
                    assert(prev.contains_key(o[b - n].key()));
                    assert(element_keys(order).contains(order[a].key()));
                } else if a >= n && b < n {
                    assert(prev.contains_key(o[a - n].key()));
                    assert(element_keys(order).contains(order[b].key()));
                } else if a >= n && b >= n {
                    assert(o[a - n] != o[b - n]);
                }
            }
        }
        assert forall|k: int| 0 < k < no.len() implies 0 <= #[trigger] np[k] < k && source.spec_children_of(no[np[k]]).contains(no[k]) by {
            if k >= n {
                let kk = k - n;
                assert(no[k] == o[kk]);
                assert(np[k] == sp[kk]);
                if kk == 0 {
                    assert(o[0] == c);
                    assert(no[0] == id);
                } else {
                    assert(0 <= ps[kk] < kk);
                    assert(no[np[k]] == o[ps[kk]]);
                }
            } else {
                assert(no[k] == order[k]);
                assert(np[k] == parents[k]);
                assert(no[np[k]] == order[parents[k]]);
            }
        }
        assert forall|j: int, x: ElementId| 0 < j < no.len() && #[trigger] source.spec_children_of(no[j]).contains(x) implies !next.contains_key(
            x.key(),
        ) by {
            if j < n {
                assert(no[j] == order[j]);
                assert(!prev.contains_key(x.key()));
            } else {
                assert(no[j] == o[j - n]);
                if j == n {
                    assert(o[0] == c);
                }
            }
        }
        assert(next.dom() =~= before.dom() - element_keys(no)) by {
            assert forall|k: u64| element_keys(no).contains(k) <==> element_keys(order).contains(k) || element_keys(o).contains(k) by {
                if element_keys(no).contains(k) {
                    let i = choose|i: int| 0 <= i < no.len() && (#[trigger] no[i]).key() == k;
                    if i < n {
                        assert(order[i] == no[i]);
                    } else {
                        assert(o[i - n] == no[i]);
                    }
                }
                if element_keys(order).contains(k) {
                    let i = choose|i: int| 0 <= i < order.len() && (#[trigger] order[i]).key() == k;
                    assert(no[i] == order[i]);
                }
                if element_keys(o).contains(k) {
                    let i = choose|i: int| 0 <= i < o.len() && (#[trigger] o[i]).key() == k;
                    assert(no[i + n] == o[i]);
                }
            }
        }
        assert(!next.contains_key(c.key())) by {
            assert(o[0] == c);
            assert(element_keys(o).contains(c.key()));
        }
    }
}

/// The chain from `start` towards the root along parent links: `start`
/// itself, then its parent, and so on while the current element is
/// present, visiting at most `fuel` elements after `start`.
pub open spec fn parent_path(metas: Map<u64, ElementMeta>, start: ElementId, fuel: nat) -> Seq<ElementId>
    decreases fuel,
{
    if fuel > 0 && metas.contains_key(start.key()) {
        match metas[start.key()].parent_id {
            Some(p) => seq![start] + parent_path(metas, p, (fuel - 1) as nat),
            None => seq![start],
        }
    } else {
        seq![start]
    }
}

/// The elements whose offsets add up to the position of `anchor` within
/// `overlay`: `anchor`, then each ancestor on the way up before
/// `overlay`, taking at most `fuel` steps; `None` when the way up breaks
/// off, at an absent element or one without a parent, before it reaches
/// `overlay`.
pub open spec fn anchor_walk(metas: Map<u64, ElementMeta>, cur: ElementId, overlay: ElementId, fuel: nat) -> Option<
    Seq<ElementId>,
>
    decreases fuel,
{
    if fuel == 0 || !metas.contains_key(cur.key()) {
        None
    } else {
        match metas[cur.key()].parent_id {
            None => None,
            Some(p) => if p == overlay {
                Some(seq![cur])
            } else {
                match anchor_walk(metas, p, overlay, (fuel - 1) as nat) {
                    Some(rest) => Some(seq![cur] + rest),
                    None => None,
                }
            },
        }
    }
}

/// The elements painted from `id`, in order: `id` when it is present,
/// then the subtree of each of its children in turn, at most `fuel`
/// levels deep.
pub open spec fn paint_order(metas: Map<u64, ElementMeta>, source: ChildLists, id: ElementId, fuel: nat) -> Seq<ElementId>
    decreases fuel, 0nat,
{
    if fuel == 0 || !metas.contains_key(id.key()) {
        Seq::empty()
    } else {
        seq![id] + paint_order_list(metas, source, source.spec_children_of(id), (fuel - 1) as nat)
    }
}

/// The subtrees of `cs`, one after another, each painted as
/// [`paint_order`] paints it.
pub open spec fn paint_order_list(metas: Map<u64, ElementMeta>, source: ChildLists, cs: Seq<ElementId>, fuel: nat) -> Seq<ElementId>
    decreases fuel, cs.len() + 1,
{
    if cs.len() == 0 {
        Seq::empty()
    } else {
        paint_order(metas, source, cs[0], fuel) + paint_order_list(metas, source, cs.drop_first(), fuel)
    }
}

proof fn lemma_paint_list_push(metas: Map<u64, ElementMeta>, source: ChildLists, cs: Seq<ElementId>, x: ElementId, fuel: nat)
    ensures
        paint_order_list(metas, source, cs.push(x), fuel) == paint_order_list(metas, source, cs, fuel) + paint_order(
            metas,
            source,
            x,
            fuel,
        ),
    decreases cs.len(),
{
    if cs.len() == 0 {
        assert(cs.push(x).drop_first() =~= Seq::<ElementId>::empty());
        assert(paint_order_list(metas, source, cs.push(x).drop_first(), fuel) == Seq::<ElementId>::empty());
        assert(cs.push(x)[0] == x);
        assert(paint_order_list(metas, source, cs.push(x), fuel) =~= paint_order(metas, source, x, fuel));
    } else {
        assert(cs.push(x).drop_first() =~= cs.drop_first().push(x));
        lemma_paint_list_push(metas, source, cs.drop_first(), x, fuel);
        assert(cs.push(x)[0] == cs[0]);
        assert(paint_order_list(metas, source, cs.push(x), fuel) =~= paint_order_list(metas, source, cs, fuel)
            + paint_order(metas, source, x, fuel));
    }
}

proof fn lemma_paint_list_split(metas: Map<u64, ElementMeta>, source: ChildLists, cs: Seq<ElementId>, i: int, fuel: nat)
    requires
        0 <= i <= cs.len(),
    ensures
        paint_order_list(metas, source, cs, fuel) == paint_order_list(metas, source, cs.take(i), fuel)
            + paint_order_list(metas, source, cs.skip(i), fuel),
    decreases i,
{
    if i == 0 {
        assert(cs.take(0) =~= Seq::<ElementId>::empty());
        assert(cs.skip(0) =~= cs);
        assert(paint_order_list(metas, source, cs, fuel) =~= Seq::<ElementId>::empty() + paint_order_list(
            metas,
            source,
            cs,
            fuel,
        ));
    } else {
        lemma_paint_list_split(metas, source, cs, i - 1, fuel);
        assert(cs.take(i) =~= cs.take(i - 1).push(cs[i - 1]));
        lemma_paint_list_push(metas, source, cs.take(i - 1), cs[i - 1], fuel);
        assert(cs.skip(i - 1)[0] == cs[i - 1]);
        assert(cs.skip(i - 1).drop_first() =~= cs.skip(i));
        assert(paint_order_list(metas, source, cs, fuel) =~= paint_order_list(metas, source, cs.take(i), fuel)
            + paint_order_list(metas, source, cs.skip(i), fuel));
    }
}

/// The id `next_id` announces is the one `add` then gives, and no live
/// element has it.
pub proof fn law_added_id_announced(e: Elements, announced: ElementId, added: ElementId)
    requires
        e.wf(),
        announced.gen_id() == e.ids().spec_next_id(),
        added.gen_id() == e.ids().spec_next_id(),
    ensures
        announced == added,
        !e.has(added),
{
    if e.has(added) {
        assert(e.ids().is_live(added.gen_id()));
        crate::id::law_next_id_is_new(e.ids(), added.gen_id());
    }
}

/// Parents paint behind their children: painting from a present `id`
/// gives `id` first, then the subtrees of its children in order, the
/// subtree of child `i` right after those of the children before it;
/// an absent `id` paints nothing.
pub proof fn law_render_preorder(metas: Map<u64, ElementMeta>, source: ChildLists, id: ElementId, fuel: nat, i: int)
    ensures
        !metas.contains_key(id.key()) ==> paint_order(metas, source, id, fuel).len() == 0,
        metas.contains_key(id.key()) && fuel > 0 ==> paint_order(metas, source, id, fuel)[0] == id,
        metas.contains_key(id.key()) && fuel > 0 && 0 <= i < source.spec_children_of(id).len() ==> paint_order(
            metas,
            source,
            id,
            fuel,
        ) == seq![id] + paint_order_list(metas, source, source.spec_children_of(id).take(i), (fuel - 1) as nat)
            + paint_order(metas, source, source.spec_children_of(id)[i], (fuel - 1) as nat) + paint_order_list(
            metas,
            source,
            source.spec_children_of(id).skip(i + 1),
            (fuel - 1) as nat,
        ),
{
    if metas.contains_key(id.key()) && fuel > 0 {
        let cs = source.spec_children_of(id);
        let f = (fuel - 1) as nat;
        if 0 <= i < cs.len() {
            lemma_paint_list_split(metas, source, cs, i, f);
            assert(cs.skip(i)[0] == cs[i]);
            assert(cs.skip(i).drop_first() =~= cs.skip(i + 1));
            assert(paint_order(metas, source, id, fuel) =~= seq![id] + paint_order_list(metas, source, cs.take(i), f)
                + paint_order(metas, source, cs[i], f) + paint_order_list(metas, source, cs.skip(i + 1), f));
        }
    }
}

/// Per-element metadata, the elements awaiting layout, and the ids.
pub struct Elements {
    metas: MetaNodes,
    dirty_elements: IdSet,
    id_generator: IdGenerator,
}

impl Elements {
    /// The metadata of every live element, keyed by [`ElementId::key`].
    pub closed spec fn metas(self) -> Map<u64, ElementMeta> {
        meta_node_entries(self.metas)
    }

    pub open spec fn has(self, id: ElementId) -> bool {
        self.metas().contains_key(id.key())
    }

    pub open spec fn meta(self, id: ElementId) -> ElementMeta {
        self.metas()[id.key()]
    }

    /// The keys of the elements marked for layout.
    pub closed spec fn dirty(self) -> Set<u64> {
        id_set_members(self.dirty_elements)
    }

    /// The id generator.
    pub closed spec fn ids(self) -> IdGenerator {
        self.id_generator
    }

    /// A well-formed store holds finitely many elements: at least one
    /// when `a` is present, and at least two when `b` is present too
    /// and differs from `a`.
    pub proof fn lemma_count(self, a: ElementId, b: ElementId)
        requires
            self.wf(),
        ensures
            self.metas().dom().finite(),
            self.has(a) ==> self.metas().len() >= 1,
            self.has(a) && self.has(b) && a != b ==> self.metas().len() >= 2,
    {
        broadcast use ElementId::lemma_key_injective;
        let d = self.metas().dom();
        if self.has(a) {
            vstd::set_lib::lemma_len_subset(set![a.key()], d);
            assert(set![a.key()].len() == 1);
            if self.has(b) && a != b {
                assert(set![a.key(), b.key()].len() == 2) by {
                    assert(set![a.key(), b.key()] =~= set![a.key()].insert(b.key()));
                }
                vstd::set_lib::lemma_len_subset(set![a.key(), b.key()], d);
            }
        }
    }

    /// The next element can be given a fresh id.
    pub open spec fn can_add(self) -> bool {
        self.ids().can_issue()
    }

    /// The elements are finitely many and each id is live.
    pub closed spec fn wf(self) -> bool {
        &&& self.metas().dom().finite()
        &&& self.ids().fresh_ok()
        &&& forall|id: ElementId| #[trigger] self.has(id) ==> self.ids().is_live(id.gen_id())
    }

    pub fn new() -> (r: Elements)
        ensures
            r.wf(),
            r.metas().dom().is_empty(),
            r.dirty().is_empty(),
            r.can_add(),
    {
        Elements { metas: meta_nodes_new(), dirty_elements: id_set_new(), id_generator: IdGenerator::new() }
    }

    /// Returns `true` when the next element can be given a fresh id.
    pub fn can_add_now(&self) -> (r: bool)
        ensures
            r == self.can_add(),
    {
        self.id_generator.unused_len() > 0 || self.id_generator.next_slot_value() < u32::MAX
    }

    /// The id the next [`Elements::add`] gives, so that an element can
    /// be built knowing its own id before it is added.
    pub fn next_id(&self) -> (r: ElementId)
        ensures
            r.gen_id() == self.ids().spec_next_id(),
    {
        ElementId(self.id_generator.peek_next_id())
    }

    /// Marks `id` for layout. Returns `true` if it was not marked yet,
    /// when the caller resets its layout state.
    pub fn mark_dirty(&mut self, id: ElementId) -> (r: bool)
        requires
            old(self).wf(),
        ensures
            final(self).wf(),
            r == !old(self).dirty().contains(id.key()),
            final(self).dirty() == old(self).dirty().insert(id.key()),
            final(self).metas() == old(self).metas(),
            final(self).ids() == old(self).ids(),
    {
        let r = id_set_insert(&mut self.dirty_elements, id.to_key());
        proof {
            assert forall|x: ElementId| #[trigger] self.has(x) implies self.ids().is_live(x.gen_id()) by {
                assert(old(self).has(x));
            }
        }
        r
    }

    /// Registers a new element whose children are `children`: each child
    /// present gets the new element as its parent, the new element
    /// records `primary_style`, and it is marked for layout.
    pub fn add(&mut self, children: &Vec<ElementId>, primary_style: Option<StyleId>) -> (r: ElementId)
        requires
            old(self).wf(),
            old(self).can_add(),
        ensures
            final(self).wf(),
            r.gen_id() == old(self).ids().spec_next_id(),
            !old(self).has(r),
            final(self).has(r),
            final(self).meta(r) == (ElementMeta { parent_id: None, primary_style }),
            forall|x: ElementId| x != r ==> #[trigger] final(self).has(x) == old(self).has(x),
            forall|x: ElementId|
                x != r && #[trigger] old(self).has(x) ==> final(self).meta(x) == (if children@.contains(x) {
                    ElementMeta { parent_id: Some(r), ..old(self).meta(x) }
                } else {
                    old(self).meta(x)
                }),
            final(self).dirty() == old(self).dirty().insert(r.key()),
    {
        broadcast use ElementId::lemma_key_injective;
        let ghost before_ids = self.ids();
        let gid = self.id_generator.new_id();
        let id = ElementId(gid);
        proof {
            assert forall|x: ElementId| #[trigger] self.has(x) implies self.ids().is_live(x.gen_id()) by {
                assert(old(self).has(x));
                assert(before_ids.is_live(x.gen_id()));
            }
            assert(!self.has(id)) by {
                if self.has(id) {
                    assert(old(self).has(id));
                    assert(before_ids.is_live(gid));
                }
            }
        }
        let mut i: usize = 0;
        while i < children.len()
            invariant
                i <= children@.len(),
                self.wf(),
                self.ids().is_live(id.gen_id()),
                !self.has(id),
                self.dirty() == old(self).dirty(),
                self.metas().dom() == old(self).metas().dom(),
                forall|x: ElementId|
                    #[trigger] old(self).has(x) ==> self.meta(x) == (if children@.take(i as int).contains(x) {
                        ElementMeta { parent_id: Some(id), ..old(self).meta(x) }
                    } else {
                        old(self).meta(x)
                    }),
            decreases children@.len() - i,
        {
            let child = children[i];
            let ghost prev = self.metas();
            let ghost s_prev = *self;
            match meta_nodes_get(&self.metas, child.to_key()) {
                None => {},
                Some(meta) => {
                    let updated = ElementMeta { parent_id: Some(id), primary_style: meta.primary_style };
                    meta_nodes_insert(&mut self.metas, child.to_key(), updated);
                },
            }
            proof {
                let t0 = children@.take(i as int);
                let t1 = children@.take(i + 1);
                assert(t1 =~= t0.push(child));
                assert(self.metas().dom() =~= old(self).metas().dom());
                assert forall|x: ElementId| #[trigger] old(self).has(x) implies self.meta(x) == (if t1.contains(x) {
                    ElementMeta { parent_id: Some(id), ..old(self).meta(x) }
                } else {
                    old(self).meta(x)
                }) by {
                    if x == child {
                        assert(t1[i as int] == child);
                    } else {
                        ElementId::lemma_key_injective(x, child);
                        assert(self.meta(x) == s_prev.meta(x));
                        if t1.contains(x) {
                            let j = choose|j: int| 0 <= j < t1.len() && #[trigger] t1[j] == x;
                            assert(t0[j] == x);
                        }
                        if t0.contains(x) {
                            let j = choose|j: int| 0 <= j < t0.len() && #[trigger] t0[j] == x;
                            assert(t1[j] == x);
                        }
                    }
                }
                assert forall|x: ElementId| #[trigger] self.has(x) implies self.ids().is_live(x.gen_id()) by {
                    assert(s_prev.has(x));
                }
            }
            i = i + 1;
        }
        let ghost s_loop = *self;
        meta_nodes_insert(&mut self.metas, id.to_key(), ElementMeta { parent_id: None, primary_style });
        id_set_insert(&mut self.dirty_elements, id.to_key());
        proof {
            assert(children@.take(children@.len() as int) =~= children@);
            assert forall|x: ElementId| #[trigger] self.has(x) implies self.ids().is_live(x.gen_id()) by {
                if x != id {
                    assert(s_loop.has(x));
                }
            }
            assert forall|x: ElementId| x != id implies #[trigger] self.has(x) == old(self).has(x) by {
                assert(x.key() != id.key());
                assert(s_loop.has(x) == old(self).has(x));
            }
            assert forall|x: ElementId| x != id && #[trigger] old(self).has(x) implies self.meta(x) == s_loop.meta(x) by {
                assert(x.key() != id.key());
            }
        }
        id
    }

    /// Returns `true` if `id` is a live element.
    pub fn contains(&self, id: &ElementId) -> (r: bool)
        ensures
            r == self.has(*id),
    {
        meta_nodes_get(&self.metas, id.to_key()).is_some()
    }

    /// Returns the parent of `id`, if `id` is live and has one.
    /// The elements whose offsets add up to where `anchor` sits within
    /// `overlay`: `anchor` and its ancestors below `overlay`, nearest
    /// first, or `None` when the way up does not reach `overlay`.
    pub fn anchor_chain(&self, anchor: &ElementId, overlay: &ElementId) -> (r: Option<Vec<ElementId>>)
        ensures
            r matches Some(v) ==> anchor_walk(self.metas(), *anchor, *overlay, self.metas().len()) == Some(v@),
            r is None ==> anchor_walk(self.metas(), *anchor, *overlay, self.metas().len()) is None,
    {
        let fuel = meta_nodes_len(&self.metas);
        let mut out: Vec<ElementId> = Vec::new();
        let mut cur = *anchor;
        let mut left = fuel;
        loop
            invariant
                left <= fuel,
                fuel == self.metas().len(),
                anchor_walk(self.metas(), *anchor, *overlay, fuel as nat) == match anchor_walk(
                    self.metas(),
                    cur,
                    *overlay,
                    left as nat,
                ) {
                    Some(rest) => Some(out@ + rest),
                    None => None::<Seq<ElementId>>,
                },
            decreases left,
        {
            if left == 0 {
                return None;
            }
            let parent = match meta_nodes_get(&self.metas, cur.to_key()) {
                None => {
                    return None;
                },
                Some(meta) => meta.parent_id,
            };
            match parent {
                None => {
                    return None;
                },
                Some(p) => {
                    let ghost before = out@;
                    out.push(cur);
                    if p == *overlay {
                        proof {
                            assert(before + seq![cur] =~= out@);
                        }
                        return Some(out);
                    }
                    proof {
                        match anchor_walk(self.metas(), p, *overlay, (left - 1) as nat) {
                            Some(rest) => {
                                assert(before + (seq![cur] + rest) =~= out@ + rest);
                            },
                            None => {},
                        }
                    }
                    cur = p;
                    left = left - 1;
                },
            }
        }
    }

    pub fn parent(&self, id: &ElementId) -> (r: Option<ElementId>)
        ensures
            r == (if self.has(*id) {
                self.meta(*id).parent_id
            } else {
                None
            }),
    {
        match meta_nodes_get(&self.metas, id.to_key()) {
            Some(meta) => meta.parent_id,
            None => None,
        }
    }

    /// Returns the primary style recorded for `id`, if any.
    pub fn primary_style(&self, id: &ElementId) -> (r: Option<StyleId>)
        ensures
            r == (if self.has(*id) {
                self.meta(*id).primary_style
            } else {
                None
            }),
    {
        match meta_nodes_get(&self.metas, id.to_key()) {
            Some(meta) => meta.primary_style,
            None => None,
        }
    }

    /// Makes `parent` the parent of `child`, if `child` is live.
    /// Returns `true` if it was.
    pub fn set_parent(&mut self, child: &ElementId, parent: ElementId) -> (r: bool)
        requires
            old(self).wf(),
        ensures
            final(self).wf(),
            r == old(self).has(*child),
            final(self).metas() == (if r {
                old(self).metas().insert(child.key(), ElementMeta { parent_id: Some(parent), ..old(self).meta(*child) })
            } else {
                old(self).metas()
            }),
            final(self).dirty() == old(self).dirty(),
            final(self).ids() == old(self).ids(),
    {
        match meta_nodes_get(&self.metas, child.to_key()) {
            None => false,
            Some(meta) => {
                let updated = ElementMeta { parent_id: Some(parent), primary_style: meta.primary_style };
                meta_nodes_insert(&mut self.metas, child.to_key(), updated);
                proof {
                    assert(self.metas().dom() =~= old(self).metas().dom());
                    assert forall|x: ElementId| #[trigger] self.has(x) implies self.ids().is_live(x.gen_id()) by {
                        assert(old(self).has(x));
                    }
                }
                true
            },
        }
    }

    /// Returns the number of live elements.
    pub fn len(&self) -> (r: usize)
        ensures
            r == self.metas().len(),
    {
        meta_nodes_len(&self.metas)
    }

    /// Empties the set of elements awaiting layout and returns those of
    /// them that are still live, each once, in no particular order.
    pub fn take_dirty(&mut self) -> (r: Vec<ElementId>)
        requires
            old(self).wf(),
        ensures
            final(self).wf(),
            final(self).dirty().is_empty(),
            final(self).metas() == old(self).metas(),
            forall|x: ElementId| #[trigger] r@.contains(x) <==> old(self).dirty().contains(x.key()) && old(self).has(x),
            r@.no_duplicates(),
    {
        broadcast use ElementId::lemma_key_injective;
        let keys = id_set_drain(&mut self.dirty_elements);
        let mut out: Vec<ElementId> = Vec::new();
        let mut i: usize = 0;
        while i < keys.len()
            invariant
                i <= keys@.len(),
                keys@.no_duplicates(),
                keys@.to_set() == old(self).dirty(),
                self.metas() == old(self).metas(),
                out@.no_duplicates(),
                forall|x: ElementId| #[trigger] out@.contains(x) <==> keys@.take(i as int).contains(x.key()) && self.has(x),
            decreases keys@.len() - i,
        {
            let id = ElementId::from_key(keys[i]);
            let live = self.contains(&id);
            let ghost t0 = keys@.take(i as int);
            let ghost t1 = keys@.take(i + 1);
            let ghost out0 = out@;
            proof {
                assert(t1 =~= t0.push(keys@[i as int]));
                assert(!t0.contains(keys@[i as int])) by {
                    if t0.contains(keys@[i as int]) {
                        let j = choose|j: int| 0 <= j < t0.len() && #[trigger] t0[j] == keys@[i as int];
                        assert(keys@[j] == keys@[i as int]);
                    }
                }
            }
            if live {
                proof {
                    assert(!out@.contains(id));
                }
                out.push(id);
            }
            proof {
                if live {
                    assert(out@ == out0.push(id));
                } else {
                    assert(out@ == out0);
                }
                assert forall|x: ElementId| #[trigger] out@.contains(x) <==> t1.contains(x.key()) && self.has(x) by {
                    if x.key() == keys@[i as int] {
                        ElementId::lemma_key_injective(x, id);
                        assert(x == id);
                        assert(t1[i as int] == x.key());
                        assert(!t0.contains(x.key()));
                        assert(!out0.contains(x));
                        if live {
                            assert(out@[out@.len() - 1] == id);
                        } else if out@.contains(x) {
                            assert(out0.contains(x));
                        }
                    } else {
                        if t1.contains(x.key()) {
                            let j = choose|j: int| 0 <= j < t1.len() && #[trigger] t1[j] == x.key();
                            assert(j != i);
                            assert(t0[j] == x.key());
                        }
                        if t0.contains(x.key()) {
                            let j = choose|j: int| 0 <= j < t0.len() && #[trigger] t0[j] == x.key();
                            assert(t1[j] == x.key());
                        }
                        assert(x != id);
                        if live {
                            if out@.contains(x) {
                                let j = choose|j: int| 0 <= j < out@.len() && #[trigger] out@[j] == x;
                                assert(j < out0.len());
                                assert(out0[j] == x);
                            }
                            if out0.contains(x) {
                                let j = choose|j: int| 0 <= j < out0.len() && #[trigger] out0[j] == x;
                                assert(out@[j] == x);
                            }
                        }
                    }
                }
            }
            i = i + 1;
        }
        proof {
            assert(keys@.take(keys@.len() as int) =~= keys@);
            assert forall|x: ElementId| #[trigger] out@.contains(x) <==> old(self).dirty().contains(x.key()) && old(self).has(x) by {
                if keys@.contains(x.key()) {
                    assert(keys@.to_set().contains(x.key()));
                }
                if old(self).dirty().contains(x.key()) {
                    assert(keys@.to_set().contains(x.key()));
                }
            }
            assert forall|x: ElementId| #[trigger] self.has(x) implies self.ids().is_live(x.gen_id()) by {
                assert(old(self).has(x));
            }
        }
        out
    }

    /// Removes `id` and every element reachable from it through the
    /// children `source` reports, appending each removed id to
    /// `removed` in removal order and recycling it.
    ///
    /// Unless `styles_done`, the primary style of the first element
    /// encountered that has one is removed from `styles` together with
    /// the style nodes below it; once a primary style has been removed
    /// on the way down, the elements below leave their styles alone,
    /// since those nodes went with it.
    fn remove_rec(
        &mut self,
        id: ElementId,
        styles: &mut Styles,
        source: &ChildLists,
        styles_done: bool,
        removed: &mut Vec<ElementId>,
    ) -> (res: (bool, Ghost<(Seq<ElementId>, Seq<int>)>))
        requires
            old(self).wf(),
            old(styles).wf(),
        ensures
            final(self).wf(),
            final(styles).wf(),
            res.0 == old(self).has(id),
            element_removal(old(self).metas(), final(self).metas(), *source, id, res.1@.0, res.1@.1),
            final(removed)@ == old(removed)@ + res.1@.0,
            !styles_done ==> forall|k: int|
                0 <= k < res.1@.0.len() && #[trigger] unstyled_above(old(self).metas(), res.1@.0, res.1@.1, k)
                    ==> primary_style_gone(old(self).metas(), *final(styles), res.1@.0[k]),
            forall|k: u64|
                old(styles).nodes().contains_key(k) && !final(styles).nodes().contains_key(k) ==> removed_under(
                    old(self).metas(),
                    res.1@.0,
                    old(styles).nodes(),
                    k,
                ),
            final(self).dirty() == old(self).dirty(),
            final(self).ids().current() == old(self).ids().current(),
            final(self).ids().next_slot() == old(self).ids().next_slot(),
            final(self).ids().unused() == old(self).ids().unused() + element_gen_ids(res.1@.0),
            !res.0 ==> final(self).metas() == old(self).metas() && final(self).ids() == old(self).ids()
                && *final(styles) == *old(styles),
            ids_recycled(old(styles).ids(), final(styles).ids(), old(styles).nodes().dom() - final(styles).nodes().dom()),
            styles_done ==> *final(styles) == *old(styles),
            !styles_done && old(self).has(id) ==> (old(self).meta(id).primary_style matches Some(p) ==> !final(styles).has(p)),
            final(styles).nodes().dom().subset_of(old(styles).nodes().dom()),
            shrunk_from(old(styles).nodes(), final(styles).nodes()),
            closed_under_children(old(styles).nodes(), final(styles).nodes()),
            final(styles).current() == old(styles).current(),
            final(styles).builder() == old(styles).builder(),
        decreases old(self).metas().len(),
    {
        broadcast use ElementId::lemma_key_injective;
        let key = id.to_key();
        match meta_nodes_remove(&mut self.metas, key) {
            None => {
                proof {
                    assert(self.metas() =~= old(self).metas());
                    assert forall|x: ElementId| #[trigger] self.has(x) implies self.ids().is_live(x.gen_id()) by {
                        assert(old(self).has(x));
                    }
                    assert(removed@ =~= old(removed)@ + Seq::<ElementId>::empty());
                    assert(old(self).ids().unused() + element_gen_ids(Seq::<ElementId>::empty()) =~= old(self).ids().unused());
                    assert(old(styles).nodes().dom() - styles.nodes().dom() =~= Set::empty());
                    lemma_recycled_none(old(styles).ids(), styles.ids());
                }
                (false, Ghost((Seq::empty(), Seq::empty())))
            },
            Some(meta) => {
                let ghost before = old(self).metas();
                let ghost mid_ids = self.ids();
                proof {
                    assert(old(self).has(id));
                    assert(mid_ids.is_live(id.gen_id()));
                }
                self.id_generator.recycle(id.0);
                proof {
                    assert forall|x: ElementId| #[trigger] self.has(x) implies self.ids().is_live(x.gen_id()) by {
                        assert(old(self).has(x));
                        assert(x != id);
                        if x.gen_id().slot() == id.gen_id().slot() {
                            assert(mid_ids.is_live(x.gen_id()));
                            assert(x.gen_id().gen() == id.gen_id().gen());
                            GenId::lemma_parts(x.gen_id());
                            GenId::lemma_parts(id.gen_id());
                        }
                    }
                    assert(self.metas() == before.remove(key));
                    lemma_start_element_removal(before, *source, id);
                }
                let ghost styles0 = *styles;
                let mut styles_done_below = styles_done;
                if !styles_done {
                    match meta.primary_style {
                        Some(primary) => {
                            styles_done_below = styles.remove(&primary);
                        },
                        None => {},
                    }
                }
                proof {
                    if styles_done || meta.primary_style is None {
                        assert(*styles == styles0);
                        assert(styles0.nodes().dom() - styles.nodes().dom() =~= Set::empty());
                        lemma_recycled_none(styles0.ids(), styles.ids());
                        lemma_shrink_refl(styles0.nodes());
                    } else {
                        let p = meta.primary_style.unwrap();
                        assert(style_reach(styles0.nodes(), p, p.key(), 0));
                        assert(in_style_subtree(styles0.nodes(), p, p.key()));
                        assert(!styles.has(p));
                    }
                    assert(styles.nodes().dom().subset_of(styles0.nodes().dom())) by {
                        assert forall|k: u64| styles.nodes().contains_key(k) implies styles0.nodes().contains_key(k) by {
                            assert(shrunk_from(styles0.nodes(), styles.nodes()));
                        }
                    }
                    assert(styles0 == *old(styles));
                    assert forall|k: u64|
                        old(styles).nodes().contains_key(k) && !styles.nodes().contains_key(k) implies removed_under(
                            before,
                            seq![id],
                            old(styles).nodes(),
                            k,
                        ) by {
                        assert(seq![id][0] == id);
                        assert(primary_reaches(before, old(styles).nodes(), seq![id][0], k));
                    }
                }
                removed.push(id);
                let children = source.children_of(&id);
                let ghost mut order = seq![id];
                let ghost mut parents = seq![0int];
                proof {
                    assert(old(self).ids().unused().push(id.gen_id()) =~= old(self).ids().unused() + element_gen_ids(order));
                }
                let mut i: usize = 0;
                while i < children.len()
                    invariant
                        i <= children@.len(),
                        children@ == source.spec_children_of(id),
                        self.wf(),
                        styles.wf(),
                        self.metas().len() < old(self).metas().len(),
                        element_partial_removal(before, self.metas(), *source, id, order, parents),
                        forall|k: int| 0 <= k < i ==> !self.metas().contains_key((#[trigger] children@[k]).key()),
                        removed@ == old(removed)@ + order,
                        self.dirty() == old(self).dirty(),
                        self.ids().current() == old(self).ids().current(),
                        self.ids().next_slot() == old(self).ids().next_slot(),
                        self.ids().unused() == old(self).ids().unused() + element_gen_ids(order),
                        ids_recycled(old(styles).ids(), styles.ids(), old(styles).nodes().dom() - styles.nodes().dom()),
                        styles_done ==> *styles == *old(styles),
                        !styles_done ==> (meta.primary_style matches Some(p) ==> !styles.has(p)),
                        meta == old(self).meta(id),
                        styles.nodes().dom().subset_of(old(styles).nodes().dom()),
                        shrunk_from(old(styles).nodes(), styles.nodes()),
                        closed_under_children(old(styles).nodes(), styles.nodes()),
                        styles.current() == old(styles).current(),
                        styles.builder() == old(styles).builder(),
                        styles_done ==> styles_done_below,
                        !styles_done && meta.primary_style is None ==> !styles_done_below,
                        before == old(self).metas(),
                        forall|k: u64|
                            old(styles).nodes().contains_key(k) && !styles.nodes().contains_key(k) ==> removed_under(
                                before,
                                order,
                                old(styles).nodes(),
                                k,
                            ),
                        !styles_done ==> forall|k: int|
                            0 <= k < order.len() && #[trigger] unstyled_above(before, order, parents, k)
                                ==> primary_style_gone(before, *styles, order[k]),
                    decreases children@.len() - i,
                {
                    let child = children[i];
                    let ghost prev = self.metas();
                    let ghost styles_prev = *styles;
                    let ghost ids_prev = self.ids();
                    let (_, sub) = self.remove_rec(child, styles, source, styles_done_below, removed);
                    proof {
                        lemma_recycled_compose(
                            old(styles).ids(),
                            styles_prev.ids(),
                            styles.ids(),
                            old(styles).nodes().dom(),
                            styles_prev.nodes().dom(),
                            styles.nodes().dom(),
                        );
                        assert(element_gen_ids(order + sub@.0) =~= element_gen_ids(order) + element_gen_ids(sub@.0));
                        assert(self.ids().unused() =~= old(self).ids().unused() + element_gen_ids(order + sub@.0));
                        lemma_shrink_compose(old(styles).nodes(), styles_prev.nodes(), styles.nodes());
                        assert(source.spec_children_of(id).contains(child)) by {
                            assert(children@[i as int] == child);
                        }
                        lemma_extend_element_removal(before, prev, self.metas(), *source, id, order, parents, child, sub@.0, sub@.1);
                        if !styles_done {
                            let n = order.len() as int;
                            let sp = Seq::new(sub@.1.len(), |k: int| if k == 0 { 0 } else { sub@.1[k] + order.len() });
                            assert forall|k: int|
                                0 <= k < (order + sub@.0).len() && #[trigger] unstyled_above(before, order + sub@.0, parents + sp, k)
                                    implies primary_style_gone(before, *styles, (order + sub@.0)[k]) by {
                                if k < n {
                                    lemma_unstyled_prefix(before, order, parents, sub@.0, sp, k);
                                    assert((order + sub@.0)[k] == order[k]);
                                    assert(primary_style_gone(before, styles_prev, order[k]));
                                    if let Some(p) = before[order[k].key()].primary_style {
                                        if styles.has(p) {
                                            assert(styles.nodes().dom().subset_of(styles_prev.nodes().dom()));
                                        }
                                    }
                                } else {
                                    let j = k - n;
                                    if prev.contains_key(child.key()) {
                                        lemma_unstyled_shift(before, prev, order, parents, sub@.0, sub@.1, j);
                                        assert((order + sub@.0)[k] == sub@.0[j]);
                                        assert(order[0] == id);
                                        assert(before[id.key()].primary_style is None);
                                        assert(meta.primary_style is None);
                                        assert(!styles_done_below);
                                        assert(unstyled_above(prev, sub@.0, sub@.1, j));
                                        assert(primary_style_gone(prev, *styles, sub@.0[j]));
                                        assert(prev[sub@.0[j].key()] == before[sub@.0[j].key()]);
                                    }
                                }
                            }
                        }
                        assert forall|k: u64|
                            old(styles).nodes().contains_key(k) && !styles.nodes().contains_key(k) implies removed_under(
                                before,
                                order + sub@.0,
                                old(styles).nodes(),
                                k,
                            ) by {
                            let n = order.len() as int;
                            if !styles_prev.nodes().contains_key(k) {
                                let j = choose|j: int| 0 <= j < order.len() && #[trigger] primary_reaches(before, old(styles).nodes(), order[j], k);
                                assert((order + sub@.0)[j] == order[j]);
                                assert(primary_reaches(before, old(styles).nodes(), (order + sub@.0)[j], k));
                            } else {
                                let j = choose|j: int| 0 <= j < sub@.0.len() && #[trigger] primary_reaches(prev, styles_prev.nodes(), sub@.0[j], k);
                                assert(prev.contains_key(sub@.0[j].key()));
                                assert(prev[sub@.0[j].key()] == before[sub@.0[j].key()]);
                                let p = prev[sub@.0[j].key()].primary_style->0;
                                let f = choose|f: nat| #[trigger] style_reach(styles_prev.nodes(), p, k, f);
                                lemma_shrunk_children(old(styles).nodes(), styles_prev.nodes());
                                lemma_reach_submap(styles_prev.nodes(), old(styles).nodes(), p, k, f);
                                assert((order + sub@.0)[n + j] == sub@.0[j]);
                                assert(primary_reaches(before, old(styles).nodes(), (order + sub@.0)[n + j], k));
                            }
                        }
                        order = order + sub@.0;
                        parents = parents + Seq::new(sub@.1.len(), |k: int| if k == 0 { 0 } else { sub@.1[k] + (order.len() - sub@.0.len()) });
                        vstd::set_lib::lemma_len_subset(self.metas().dom(), prev.dom());
                        assert(removed@ =~= old(removed)@ + order);
                        assert forall|k: int| 0 <= k < i + 1 implies !self.metas().contains_key((#[trigger] children@[k]).key()) by {
                            if k < i {
                                assert(!prev.contains_key(children@[k].key()));
                            }
                        }
                        if !styles_done {
                            if let Some(p) = meta.primary_style {
                                assert(!styles_prev.has(p));
                                assert(!styles.has(p));
                            }
                        }
                    }
                    i = i + 1;
                }
                proof {
                    assert forall|c: ElementId| #[trigger] source.spec_children_of(id).contains(c) implies !self.metas().contains_key(c.key()) by {
                        let k = choose|k: int| 0 <= k < children@.len() && children@[k] == c;
                    }
                }
                (true, Ghost((order, parents)))
            },
        }
    }

    /// Removes `id` and every element reachable from it through the
    /// children `source` reports, recycling their ids and appending them
    /// to `removed` in removal order. The primary style of the first
    /// element on each path down that has one goes too, with every style
    /// node below it, and the ids of the removed style nodes go back to
    /// the style store's generator; no other style node goes. Returns
    /// `true` if `id` was live; otherwise nothing changes.
    pub fn remove(&mut self, id: &ElementId, styles: &mut Styles, source: &ChildLists, removed: &mut Vec<ElementId>) -> (r: bool)
        requires
            old(self).wf(),
            old(styles).wf(),
        ensures
            final(self).wf(),
            final(styles).wf(),
            r == old(self).has(*id),
            exists|order: Seq<ElementId>, parents: Seq<int>|
                {
                    &&& #[trigger] element_removal(old(self).metas(), final(self).metas(), *source, *id, order, parents)
                    &&& final(removed)@ == old(removed)@ + order
                    &&& final(self).ids().unused() == old(self).ids().unused() + element_gen_ids(order)
                    &&& forall|k: int|
                        0 <= k < order.len() && #[trigger] unstyled_above(old(self).metas(), order, parents, k)
                            ==> primary_style_gone(old(self).metas(), *final(styles), order[k])
                    &&& forall|k: int, n: u64|
                        0 <= k < order.len() && unstyled_above(old(self).metas(), order, parents, k)
                            && #[trigger] primary_reaches(old(self).metas(), old(styles).nodes(), order[k], n)
                            ==> !final(styles).nodes().contains_key(n)
                    &&& forall|k: u64|
                        old(styles).nodes().contains_key(k) && !final(styles).nodes().contains_key(k) ==> removed_under(
                            old(self).metas(),
                            order,
                            old(styles).nodes(),
                            k,
                        )
                },
            old(self).has(*id) ==> (old(self).meta(*id).primary_style matches Some(p) ==> !final(styles).has(p)),
            !r ==> final(self).metas() == old(self).metas() && final(self).ids() == old(self).ids()
                && *final(styles) == *old(styles) && final(removed)@ == old(removed)@,
            final(self).ids().next_slot() == old(self).ids().next_slot(),
            final(self).ids().current() == old(self).ids().current(),
            ids_recycled(old(styles).ids(), final(styles).ids(), old(styles).nodes().dom() - final(styles).nodes().dom()),
            final(self).dirty() == old(self).dirty(),
            final(styles).nodes().dom().subset_of(old(styles).nodes().dom()),
            shrunk_from(old(styles).nodes(), final(styles).nodes()),
            closed_under_children(old(styles).nodes(), final(styles).nodes()),
            final(styles).current() == old(styles).current(),
            final(styles).builder() == old(styles).builder(),
    {
        let (r, walk) = self.remove_rec(*id, styles, source, false, removed);
        proof {
            let (order, parents) = walk@;
            assert forall|k: int, n: u64|
                0 <= k < order.len() && unstyled_above(old(self).metas(), order, parents, k)
                    && #[trigger] primary_reaches(old(self).metas(), old(styles).nodes(), order[k], n)
                    implies !styles.nodes().contains_key(n) by {
                let p = old(self).metas()[order[k].key()].primary_style->0;
                assert(primary_style_gone(old(self).metas(), *styles, order[k]));
                let f = choose|f: nat| #[trigger] style_reach(old(styles).nodes(), p, n, f);
                lemma_reach_gone(old(styles).nodes(), styles.nodes(), p, n, f);
            }
        }
        r
    }

    /// Appends to `out` the elements painted from `id`, `fuel` levels
    /// deep at most.
    fn paint_walk(&self, id: ElementId, source: &ChildLists, fuel: usize, out: &mut Vec<ElementId>)
        ensures
            final(out)@ == old(out)@ + paint_order(self.metas(), *source, id, fuel as nat),
        decreases fuel,
    {
        if fuel == 0 {
            proof {
                assert(old(out)@ + Seq::<ElementId>::empty() =~= old(out)@);
            }
            return;
        }
        match meta_nodes_get(&self.metas, id.to_key()) {
            None => {
                proof {
                    assert(old(out)@ + Seq::<ElementId>::empty() =~= old(out)@);
                }
                return;
            },
            Some(_) => {},
        }
        out.push(id);
        let children = source.children_of(&id);
        let mut i: usize = 0;
        while i < children.len()
            invariant
                0 < fuel,
                i <= children@.len(),
                children@ == source.spec_children_of(id),
                out@ == old(out)@ + seq![id] + paint_order_list(self.metas(), *source, children@.take(i as int), (fuel - 1) as nat),
            decreases children@.len() - i,
        {
            let child = children[i];
            self.paint_walk(child, source, fuel - 1, out);
            proof {
                assert(children@.take(i + 1) =~= children@.take(i as int).push(child));
                lemma_paint_list_push(self.metas(), *source, children@.take(i as int), child, (fuel - 1) as nat);
            }
            i = i + 1;
        }
        proof {
            assert(children@.take(children@.len() as int) =~= children@);
            assert(out@ =~= old(out)@ + paint_order(self.metas(), *source, id, fuel as nat));
        }
    }

    /// The elements to paint from `id`, in painting order: `id` when it
    /// is present, then the subtree of each of its children, as
    /// `source` reports them, in turn; at most as many levels deep as
    /// there are elements.
    pub fn render_order(&self, id: &ElementId, source: &ChildLists) -> (r: Vec<ElementId>)
        ensures
            r@ == paint_order(self.metas(), *source, *id, self.metas().len()),
            self.wf() && self.has(*id) ==> r@.len() > 0 && r@[0] == *id,
            !self.has(*id) ==> r@.len() == 0,
    {
        proof {
            if self.wf() {
                self.lemma_count(*id, *id);
            }
        }
        let fuel = meta_nodes_len(&self.metas);
        let mut out: Vec<ElementId> = Vec::new();
        self.paint_walk(*id, source, fuel, &mut out);
        proof {
            assert(out@ =~= paint_order(self.metas(), *source, *id, fuel as nat));
        }
        out
    }

    /// The path a bubbling interaction takes from `start`: `start`
    /// itself, then each parent in turn while the current element is
    /// live, visiting at most as many elements as are live.
    pub fn bubble_path(&self, start: &ElementId) -> (r: Vec<ElementId>)
        requires
            self.wf(),
        ensures
            r@ == parent_path(self.metas(), *start, self.metas().len()),
            r@.len() > 0 && r@[0] == *start,
            self.has(*start) ==> (self.meta(*start).parent_id matches Some(p) ==> r@.len() > 1 && r@[1] == p),
    {
        proof {
            self.lemma_count(*start, *start);
            if self.has(*start) {
                if let Some(p) = self.meta(*start).parent_id {
                    assert(parent_path(self.metas(), p, (self.metas().len() - 1) as nat)[0] == p);
                }
            }
        }
        let fuel = meta_nodes_len(&self.metas);
        let mut out: Vec<ElementId> = Vec::new();
        let mut current = *start;
        let mut left = fuel;
        loop
            invariant_except_break
                out@ + parent_path(self.metas(), current, left as nat) == parent_path(self.metas(), *start, fuel as nat),
            ensures
                out@ == parent_path(self.metas(), *start, fuel as nat),
            decreases left,
        {
            let ghost out0 = out@;
            out.push(current);
            proof {
                assert(out@ == out0 + seq![current]);
            }
            if left == 0 {
                break;
            }
            match meta_nodes_get(&self.metas, current.to_key()) {
                None => {
                    break;
                },
                Some(meta) => {
                    match meta.parent_id {
                        None => {
                            break;
                        },
                        Some(p) => {
                            proof {
                                assert(parent_path(self.metas(), current, left as nat) == seq![current] + parent_path(
                                    self.metas(),
                                    p,
                                    (left - 1) as nat,
                                ));
                                assert(out@ + parent_path(self.metas(), p, (left - 1) as nat) =~= out0 + (
                                seq![current] + parent_path(self.metas(), p, (left - 1) as nat)));
                            }
                            current = p;
                            left = left - 1;
                        },
                    }
                },
            }
        }
        out
    }
}

/// Distinct present elements are no more than the elements there are.
proof fn lemma_distinct_present_count(metas: Map<u64, ElementMeta>, a: Seq<ElementId>)
    requires
        metas.dom().finite(),
        a.no_duplicates(),
        forall|k: int| 0 <= k < a.len() ==> metas.contains_key((#[trigger] a[k]).key()),
    ensures
        a.len() <= metas.len(),
{
    broadcast use ElementId::lemma_key_injective;
    let ks = a.map_values(|x: ElementId| x.key());
    assert forall|i: int, j: int| 0 <= i < ks.len() && 0 <= j < ks.len() && i != j implies ks[i] != ks[j] by {
        assert(a[i] != a[j]);
    }
    assert(ks.no_duplicates());
    ks.unique_seq_to_set();
    assert forall|x: u64| ks.to_set().contains(x) implies metas.dom().contains(x) by {
        let i = choose|i: int| 0 <= i < ks.len() && ks[i] == x;
        assert(metas.contains_key(a[i].key()));
    }
    vstd::set_lib::lemma_len_subset(ks.to_set(), metas.dom());
}

/// The parent path from `a[0]` follows any run `a` of present
/// elements, each the parent of the one before it, while the fuel
/// lasts, and then goes on to the parent of the last one, if any.
proof fn lemma_parent_path_follows(metas: Map<u64, ElementMeta>, a: Seq<ElementId>, fuel: nat)
    requires
        a.len() > 0,
        fuel >= a.len(),
        forall|k: int| 0 <= k < a.len() ==> metas.contains_key((#[trigger] a[k]).key()),
        forall|k: int| 0 <= k < a.len() - 1 ==> (#[trigger] metas[a[k].key()]).parent_id == Some(a[k + 1]),
    ensures
        parent_path(metas, a[0], fuel).len() >= a.len(),
        forall|k: int| 0 <= k < a.len() ==> parent_path(metas, a[0], fuel)[k] == #[trigger] a[k],
        metas[a.last().key()].parent_id matches Some(q) ==> parent_path(metas, a[0], fuel).len() > a.len()
            && parent_path(metas, a[0], fuel)[a.len() as int] == q,
        metas[a.last().key()].parent_id is None ==> parent_path(metas, a[0], fuel).len() == a.len(),
    decreases a.len(),
{
    let c = parent_path(metas, a[0], fuel);
    assert(metas.contains_key(a[0].key()));
    if a.len() == 1 {
        if let Some(q) = metas[a[0].key()].parent_id {
            assert(parent_path(metas, q, (fuel - 1) as nat)[0] == q);
        }
    } else {
        let b = a.drop_first();
        assert forall|k: int| 0 <= k < b.len() implies metas.contains_key((#[trigger] b[k]).key()) by {
            assert(b[k] == a[k + 1]);
        }
        assert forall|k: int| 0 <= k < b.len() - 1 implies (#[trigger] metas[b[k].key()]).parent_id == Some(b[k + 1]) by {
            assert(b[k] == a[k + 1]);
            assert(b[k + 1] == a[k + 2]);
            assert(metas[a[k + 1].key()].parent_id == Some(a[k + 1 + 1]));
        }
        lemma_parent_path_follows(metas, b, (fuel - 1) as nat);
        assert(metas[a[0int].key()].parent_id == Some(a[0int + 1]));
        let rest = parent_path(metas, b[0], (fuel - 1) as nat);
        assert(c == seq![a[0]] + rest);
        assert forall|k: int| 0 <= k < a.len() implies c[k] == #[trigger] a[k] by {
            if k > 0 {
                assert(c[k] == rest[k - 1]);
                assert(b[k - 1] == a[k]);
            }
        }
        assert(a.last() == b.last());
        if let Some(q) = metas[a.last().key()].parent_id {
            assert(c[a.len() as int] == rest[b.len() as int]);
        }
    }
}

/// Bubbling reaches every ancestor: for any run `a` of distinct live
/// elements, each the parent of the one before it, the path that
/// [`Elements::bubble_path`] gives from `a[0]` runs through all of `a`
/// in order, however long the run, then to the parent of its last
/// element, and ends there when that element has no parent.
pub proof fn law_bubbling_reaches_every_ancestor(e: Elements, a: Seq<ElementId>)
    requires
        e.wf(),
        a.len() > 0,
        a.no_duplicates(),
        forall|k: int| 0 <= k < a.len() ==> e.has(#[trigger] a[k]),
        forall|k: int| 0 <= k < a.len() - 1 ==> (#[trigger] e.meta(a[k])).parent_id == Some(a[k + 1]),
    ensures
        ({
            let r = parent_path(e.metas(), a[0], e.metas().len());
            &&& r.len() >= a.len()
            &&& forall|k: int| 0 <= k < a.len() ==> r[k] == #[trigger] a[k]
            &&& e.meta(a.last()).parent_id matches Some(q) ==> r.len() > a.len() && r[a.len() as int] == q
            &&& e.meta(a.last()).parent_id is None ==> r == a
        }),
{
    let metas = e.metas();
    e.lemma_count(a[0], a[0]);
    lemma_distinct_present_count(metas, a);
    assert forall|k: int| 0 <= k < a.len() - 1 implies (#[trigger] metas[a[k].key()]).parent_id == Some(a[k + 1]) by {
        assert(e.meta(a[k]).parent_id == Some(a[k + 1]));
    }
    lemma_parent_path_follows(metas, a, metas.len());
    let r = parent_path(metas, a[0], metas.len());
    if e.meta(a.last()).parent_id is None {
        assert(r =~= a);
    }
}

/// The anchor walk from `a[0]` follows any run `a` of present elements,
/// each the parent of the one before it and none past the first equal
/// to `overlay`, whose last element has `overlay` as its parent, and
/// gives exactly that run.
proof fn lemma_anchor_walk_follows(metas: Map<u64, ElementMeta>, a: Seq<ElementId>, overlay: ElementId, fuel: nat)
    requires
        a.len() > 0,
        fuel >= a.len(),
        forall|k: int| 0 <= k < a.len() ==> metas.contains_key((#[trigger] a[k]).key()),
        forall|k: int| 0 <= k < a.len() - 1 ==> (#[trigger] metas[a[k].key()]).parent_id == Some(a[k + 1]),
        forall|k: int| 0 < k < a.len() ==> #[trigger] a[k] != overlay,
        metas[a.last().key()].parent_id == Some(overlay),
    ensures
        anchor_walk(metas, a[0], overlay, fuel) == Some(a),
    decreases a.len(),
{
    assert(metas.contains_key(a[0].key()));
    if a.len() == 1 {
        assert(seq![a[0]] =~= a);
    } else {
        let b = a.drop_first();
        assert forall|k: int| 0 <= k < b.len() implies metas.contains_key((#[trigger] b[k]).key()) by {
            assert(b[k] == a[k + 1]);
        }
        assert forall|k: int| 0 <= k < b.len() - 1 implies (#[trigger] metas[b[k].key()]).parent_id == Some(b[k + 1]) by {
            assert(b[k] == a[k + 1]);
            assert(b[k + 1] == a[k + 2]);
            assert(metas[a[k + 1].key()].parent_id == Some(a[k + 1 + 1]));
        }
        assert forall|k: int| 0 < k < b.len() implies #[trigger] b[k] != overlay by {
            assert(b[k] == a[k + 1]);
        }
        assert(a.last() == b.last());
        lemma_anchor_walk_follows(metas, b, overlay, (fuel - 1) as nat);
        assert(metas[a[0int].key()].parent_id == Some(a[0int + 1]));
        assert(a[1] != overlay);
        assert(seq![a[0]] + b =~= a);
    }
}

/// What the anchor walk gives, when it gives anything, is a run of
/// present elements from `anchor`, each the parent of the one before
/// it and none past the first equal to `overlay`, whose last element
/// has `overlay` as its parent.
proof fn lemma_anchor_walk_sound(metas: Map<u64, ElementMeta>, anchor: ElementId, overlay: ElementId, fuel: nat)
    ensures
        anchor_walk(metas, anchor, overlay, fuel) matches Some(v) ==> {
            &&& v.len() > 0
            &&& v[0] == anchor
            &&& forall|k: int| 0 <= k < v.len() ==> metas.contains_key((#[trigger] v[k]).key())
            &&& forall|k: int| 0 <= k < v.len() - 1 ==> (#[trigger] metas[v[k].key()]).parent_id == Some(v[k + 1])
            &&& forall|k: int| 0 < k < v.len() ==> #[trigger] v[k] != overlay
            &&& metas[v.last().key()].parent_id == Some(overlay)
        },
    decreases fuel,
{
    if fuel > 0 && metas.contains_key(anchor.key()) {
        if let Some(p) = metas[anchor.key()].parent_id {
            if p != overlay {
                lemma_anchor_walk_sound(metas, p, overlay, (fuel - 1) as nat);
                if let Some(rest) = anchor_walk(metas, p, overlay, (fuel - 1) as nat) {
                    let v = seq![anchor] + rest;
                    assert forall|k: int| 0 <= k < v.len() implies metas.contains_key((#[trigger] v[k]).key()) by {
                        if k > 0 {
                            assert(v[k] == rest[k - 1]);
                        }
                    }
                    assert forall|k: int| 0 <= k < v.len() - 1 implies (#[trigger] metas[v[k].key()]).parent_id
                        == Some(v[k + 1]) by {
                        if k > 0 {
                            assert(v[k] == rest[k - 1]);
                            assert(v[k + 1] == rest[k - 1 + 1]);
                        } else {
                            assert(v[1] == rest[0]);
                        }
                    }
                    assert forall|k: int| 0 < k < v.len() implies #[trigger] v[k] != overlay by {
                        assert(v[k] == rest[k - 1]);
                        if k == 1 {
                            assert(rest[0] == p);
                        }
                    }
                    assert(v.last() == rest.last());
                }
            }
        }
    }
}

/// The anchor chain is exactly the way up: for any run `a` of distinct
/// live elements, each the parent of the one before it and none past
/// the first being `overlay`, whose last element is a child of
/// `overlay`, [`Elements::anchor_chain`] from `a[0]` to `overlay` gives
/// `a`, however long the run; and whatever it gives is such a run.
pub proof fn law_anchor_chain_is_the_way_up(e: Elements, a: Seq<ElementId>, anchor: ElementId, overlay: ElementId)
    requires
        e.wf(),
    ensures
        ({
            &&& a.len() > 0 && a.no_duplicates() && (forall|k: int| 0 <= k < a.len() ==> e.has(#[trigger] a[k]))
                && (forall|k: int| 0 <= k < a.len() - 1 ==> (#[trigger] e.meta(a[k])).parent_id == Some(a[k + 1]))
                && (forall|k: int| 0 < k < a.len() ==> #[trigger] a[k] != overlay)
                && e.meta(a.last()).parent_id == Some(overlay)
                ==> anchor_walk(e.metas(), a[0], overlay, e.metas().len()) == Some(a)
            &&& anchor_walk(e.metas(), anchor, overlay, e.metas().len()) matches Some(v) ==> {
                &&& v.len() > 0
                &&& v[0] == anchor
                &&& forall|k: int| 0 <= k < v.len() ==> e.has(#[trigger] v[k])
                &&& forall|k: int| 0 <= k < v.len() - 1 ==> (#[trigger] e.meta(v[k])).parent_id == Some(v[k + 1])
                &&& forall|k: int| 0 < k < v.len() ==> #[trigger] v[k] != overlay
                &&& e.meta(v.last()).parent_id == Some(overlay)
            }
        }),
{
    let metas = e.metas();
    lemma_anchor_walk_sound(metas, anchor, overlay, metas.len());
    if a.len() > 0 && a.no_duplicates() && (forall|k: int| 0 <= k < a.len() ==> e.has(#[trigger] a[k]))
        && (forall|k: int| 0 <= k < a.len() - 1 ==> (#[trigger] e.meta(a[k])).parent_id == Some(a[k + 1]))
        && (forall|k: int| 0 < k < a.len() ==> #[trigger] a[k] != overlay) && e.meta(a.last()).parent_id == Some(
        overlay,
    ) {
        e.lemma_count(a[0], a[0]);
        lemma_distinct_present_count(metas, a);
        assert forall|k: int| 0 <= k < a.len() - 1 implies (#[trigger] metas[a[k].key()]).parent_id == Some(a[k + 1]) by {
            assert(e.meta(a[k]).parent_id == Some(a[k + 1]));
        }
        lemma_anchor_walk_follows(metas, a, overlay, metas.len());
    }
}

} // verus!
