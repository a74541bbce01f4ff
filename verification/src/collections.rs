//! The collections behind the style tree, the element hierarchy and
//! the signal scopes: `hashbrown` maps and sets keyed by the packed form
//! of an id, and the `sparse_map` lists that number each signal's
//! scopes.
//!
//! Each collection sits in a private field of a struct of its own; the
//! functions below are the only way in, and each states what the
//! corresponding method of the outside crate does to the contents.
use vstd::prelude::*;

use crate::element::ElementMeta;
use crate::signal::{ScopeKey, UntypedScope};
use crate::style::{Span, Style};

verus! {

/// Committed style nodes keyed by the packed style id.
#[verifier::external_body]
pub struct StyleNodes {
    map: hashbrown::HashMap<u64, Style>,
}

/// What a [`StyleNodes`] holds.
pub uninterp spec fn style_node_entries(m: StyleNodes) -> Map<u64, Style>;

/// `hashbrown::HashMap::new`: an empty map.
#[verifier::external_body]
pub fn style_nodes_new() -> (r: StyleNodes)
    ensures
        style_node_entries(r).dom().is_empty(),
{
    StyleNodes { map: hashbrown::HashMap::new() }
}

/// `hashbrown::HashMap::insert`: stores `v` under `k` and hands back
/// the value it displaced.
#[verifier::external_body]
pub fn style_nodes_insert(m: &mut StyleNodes, k: u64, v: Style) -> (r: Option<Style>)
    ensures
        style_node_entries(*final(m)) == style_node_entries(*old(m)).insert(k, v),
        r == style_node_entries(*old(m)).get(k),
{
    m.map.insert(k, v)
}

/// `hashbrown::HashMap::get`: the value under `k`, if any.
#[verifier::external_body]
pub fn style_nodes_get(m: &StyleNodes, k: u64) -> (r: Option<&Style>)
    ensures
        r matches Some(v) ==> style_node_entries(*m).get(k) == Some(*v),
        r is None ==> !style_node_entries(*m).contains_key(k),
{
    m.map.get(&k)
}

/// `hashbrown::HashMap::remove`: takes the value under `k` out.
#[verifier::external_body]
pub fn style_nodes_remove(m: &mut StyleNodes, k: u64) -> (r: Option<Style>)
    ensures
        style_node_entries(*final(m)) == style_node_entries(*old(m)).remove(k),
        r == style_node_entries(*old(m)).get(k),
{
    m.map.remove(&k)
}

/// `hashbrown::HashMap::len`: the number of entries.
#[verifier::external_body]
pub fn style_nodes_len(m: &StyleNodes) -> (r: usize)
    ensures
        r == style_node_entries(*m).len(),
{
    m.map.len()
}

/// The span of each styled type's fields within a style, keyed by the
/// type's key.
#[verifier::external_body]
pub struct SpanMap {
    map: hashbrown::HashMap<u64, Span>,
}

/// What a [`SpanMap`] holds.
pub uninterp spec fn span_map_entries(m: SpanMap) -> Map<u64, Span>;

/// `hashbrown::HashMap::new`: an empty map.
#[verifier::external_body]
pub fn span_map_new() -> (r: SpanMap)
    ensures
        span_map_entries(r).dom().is_empty(),
{
    SpanMap { map: hashbrown::HashMap::new() }
}

/// `hashbrown::HashMap::insert`: stores `v` under `k`, dropping the
/// value it displaces.
#[verifier::external_body]
pub fn span_map_insert(m: &mut SpanMap, k: u64, v: Span)
    ensures
        span_map_entries(*final(m)) == span_map_entries(*old(m)).insert(k, v),
{
    m.map.insert(k, v);
}

/// `hashbrown::HashMap::get`, copied out: the value under `k`, if any.
#[verifier::external_body]
pub fn span_map_get(m: &SpanMap, k: u64) -> (r: Option<Span>)
    ensures
        r == span_map_entries(*m).get(k),
{
    m.map.get(&k).copied()
}

/// Per-element metadata keyed by the packed element id.
#[verifier::external_body]
pub struct MetaNodes {
    map: hashbrown::HashMap<u64, ElementMeta>,
}

/// What a [`MetaNodes`] holds.
pub uninterp spec fn meta_node_entries(m: MetaNodes) -> Map<u64, ElementMeta>;

/// `hashbrown::HashMap::new`: an empty map.
#[verifier::external_body]
pub fn meta_nodes_new() -> (r: MetaNodes)
    ensures
        meta_node_entries(r).dom().is_empty(),
{
    MetaNodes { map: hashbrown::HashMap::new() }
}

/// `hashbrown::HashMap::insert`: stores `v` under `k` and hands back
/// the value it displaced.
#[verifier::external_body]
pub fn meta_nodes_insert(m: &mut MetaNodes, k: u64, v: ElementMeta) -> (r: Option<ElementMeta>)
    ensures
        meta_node_entries(*final(m)) == meta_node_entries(*old(m)).insert(k, v),
        r == meta_node_entries(*old(m)).get(k),
{
    m.map.insert(k, v)
}

/// `hashbrown::HashMap::get`: the value under `k`, if any.
#[verifier::external_body]
pub fn meta_nodes_get(m: &MetaNodes, k: u64) -> (r: Option<&ElementMeta>)
    ensures
        r matches Some(v) ==> meta_node_entries(*m).get(k) == Some(*v),
        r is None ==> !meta_node_entries(*m).contains_key(k),
{
    m.map.get(&k)
}

/// `hashbrown::HashMap::remove`: takes the value under `k` out.
#[verifier::external_body]
pub fn meta_nodes_remove(m: &mut MetaNodes, k: u64) -> (r: Option<ElementMeta>)
    ensures
        meta_node_entries(*final(m)) == meta_node_entries(*old(m)).remove(k),
        r == meta_node_entries(*old(m)).get(k),
{
    m.map.remove(&k)
}

/// `hashbrown::HashMap::len`: the number of entries.
#[verifier::external_body]
pub fn meta_nodes_len(m: &MetaNodes) -> (r: usize)
    ensures
        r == meta_node_entries(*m).len(),
{
    m.map.len()
}

/// A set of packed element ids.
#[verifier::external_body]
pub struct IdSet {
    set: hashbrown::HashSet<u64>,
}

/// What an [`IdSet`] holds.
pub uninterp spec fn id_set_members(s: IdSet) -> Set<u64>;

/// `hashbrown::HashSet::new`: an empty set.
#[verifier::external_body]
pub fn id_set_new() -> (r: IdSet)
    ensures
        id_set_members(r).is_empty(),
{
    IdSet { set: hashbrown::HashSet::new() }
}

/// `hashbrown::HashSet::insert`: adds `k`; `true` if it was not there.
#[verifier::external_body]
pub fn id_set_insert(s: &mut IdSet, k: u64) -> (r: bool)
    ensures
        id_set_members(*final(s)) == id_set_members(*old(s)).insert(k),
        r == !id_set_members(*old(s)).contains(k),
{
    s.set.insert(k)
}

/// `hashbrown::HashSet::remove`: drops `k`; `true` if it was there.
#[verifier::external_body]
pub fn id_set_remove(s: &mut IdSet, k: u64) -> (r: bool)
    ensures
        id_set_members(*final(s)) == id_set_members(*old(s)).remove(k),
        r == id_set_members(*old(s)).contains(k),
{
    s.set.remove(&k)
}

/// `hashbrown::HashSet::contains`.
#[verifier::external_body]
pub fn id_set_contains(s: &IdSet, k: u64) -> (r: bool)
    ensures
        r == id_set_members(*s).contains(k),
{
    s.set.contains(&k)
}

/// `hashbrown::HashSet::drain`: empties the set, handing its members
/// out once each in the set's own order.
#[verifier::external_body]
pub fn id_set_drain(s: &mut IdSet) -> (r: Vec<u64>)
    ensures
        id_set_members(*final(s)).is_empty(),
        r@.to_set() == id_set_members(*old(s)),
        r@.no_duplicates(),
{
    s.set.drain().collect()
}

/// Column indices keyed by the key of the type stored in the column.
#[verifier::external_body]
pub struct SlotMap {
    map: hashbrown::HashMap<u64, usize>,
}

/// What a [`SlotMap`] holds.
pub uninterp spec fn slot_map_entries(m: SlotMap) -> Map<u64, usize>;

/// `hashbrown::HashMap::new`: an empty map.
#[verifier::external_body]
pub fn slot_map_new() -> (r: SlotMap)
    ensures
        slot_map_entries(r).dom().is_empty(),
{
    SlotMap { map: hashbrown::HashMap::new() }
}

/// `hashbrown::HashMap::insert`: stores `v` under `k` and hands back
/// the value it displaced.
#[verifier::external_body]
pub fn slot_map_insert(m: &mut SlotMap, k: u64, v: usize) -> (r: Option<usize>)
    ensures
        slot_map_entries(*final(m)) == slot_map_entries(*old(m)).insert(k, v),
        r == slot_map_entries(*old(m)).get(k),
{
    m.map.insert(k, v)
}

/// `hashbrown::HashMap::get`, copied out: the value under `k`, if any.
#[verifier::external_body]
pub fn slot_map_get(m: &SlotMap, k: u64) -> (r: Option<usize>)
    ensures
        r == slot_map_entries(*m).get(k),
{
    m.map.get(&k).copied()
}

/// The scopes registered on one signal, each under the generational
/// key it was given.
#[verifier::external_body]
pub struct ScopeList {
    slots: sparse_map::SparseMap<UntypedScope>,
}

/// What a [`ScopeList`] holds, by key.
pub uninterp spec fn scope_list_entries(l: ScopeList) -> Map<ScopeKey, UntypedScope>;

/// `sparse_map::SparseMap::new`: no scopes.
#[verifier::external_body]
pub fn scope_list_new() -> (r: ScopeList)
    ensures
        scope_list_entries(r).dom().is_empty(),
{
    ScopeList { slots: sparse_map::SparseMap::new() }
}

/// `sparse_map::SparseMap::insert`: stores `scope` under a new key, in
/// a slot that no stored scope occupies, and hands the key back.
#[verifier::external_body]
pub fn scope_list_insert(l: &mut ScopeList, scope: UntypedScope) -> (r: ScopeKey)
    ensures
        scope_list_entries(*final(l)) == scope_list_entries(*old(l)).insert(r, scope),
        forall|k: ScopeKey| #[trigger] scope_list_entries(*old(l)).contains_key(k) ==> k.index != r.index,
{
    let key = l.slots.insert(scope);
    ScopeKey { index: key.index(), generation: key.generation() }
}

/// The scope lists of the signals, keyed by the packed signal id.
#[verifier::external_body]
pub struct ScopeMap {
    map: hashbrown::HashMap<u64, ScopeList>,
}

/// What a [`ScopeMap`] holds: for each signal, the scopes of its list.
pub uninterp spec fn scope_map_entries(m: ScopeMap) -> Map<u64, Map<ScopeKey, UntypedScope>>;

/// `hashbrown::HashMap::new`: an empty map.
#[verifier::external_body]
pub fn scope_map_new() -> (r: ScopeMap)
    ensures
        scope_map_entries(r).dom().is_empty(),
{
    ScopeMap { map: hashbrown::HashMap::new() }
}

/// `hashbrown::HashMap::insert`: stores list `l` under `k`, dropping
/// the list it displaces.
#[verifier::external_body]
pub fn scope_map_insert(m: &mut ScopeMap, k: u64, l: ScopeList)
    ensures
        scope_map_entries(*final(m)) == scope_map_entries(*old(m)).insert(k, scope_list_entries(l)),
{
    m.map.insert(k, l);
}

/// `hashbrown::HashMap::remove`: takes the list under `k` out.
#[verifier::external_body]
pub fn scope_map_remove(m: &mut ScopeMap, k: u64) -> (r: Option<ScopeList>)
    ensures
        scope_map_entries(*final(m)) == scope_map_entries(*old(m)).remove(k),
        r is Some <==> scope_map_entries(*old(m)).contains_key(k),
        r matches Some(l) ==> scope_list_entries(l) == scope_map_entries(*old(m))[k],
{
    m.map.remove(&k)
}

} // verus!
