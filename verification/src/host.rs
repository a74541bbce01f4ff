//! A tiny in-memory backend: a world of nodes keyed by `usize`, each
//! with an optional parent and the fields elements write to.
//!
//! Ids are handed out in increasing order and never reused, so a node
//! spawned under a live parent always has a larger id than that parent;
//! [`World::wf`] records this, and it is what makes despawning a
//! subtree terminate.
use std::collections::HashMap;
use std::time::Duration;
use vstd::prelude::*;

verus! {

broadcast use vstd::std_specs::hash::group_hash_axioms;

/// What elements write to: a field per thing anybody writes.
pub struct Node {
    parent: Option<usize>,
    pub text: String,
    pub size: u32,
    pub padding: u32,
}

impl Node {
    /// The node this one was spawned under, if any.
    pub closed spec fn parent_link(&self) -> Option<usize> {
        self.parent
    }

    /// The text, as characters.
    pub closed spec fn text_view(&self) -> Seq<char> {
        self.text@
    }

    /// The font size written to it.
    pub closed spec fn size_value(&self) -> u32 {
        self.size
    }

    /// The padding written to it.
    pub closed spec fn padding_value(&self) -> u32 {
        self.padding
    }
}

impl Default for Node {
    fn default() -> (r: Node)
        ensures
            r.parent_link() is None,
            r.text_view() == Seq::<char>::empty(),
            r.size_value() == 0,
            r.padding_value() == 0,
    {
        Node { parent: None, text: String::new(), size: 0, padding: 0 }
    }
}

/// App state a binding reads from.
pub struct Doc {
    pub title: String,
    pub dirty: bool,
}

impl Default for Doc {
    fn default() -> (r: Doc)
        ensures
            r.title@ == Seq::<char>::empty(),
            !r.dirty,
    {
        Doc { title: String::new(), dirty: false }
    }
}

/// `Duration::default`: the zero duration. No property of it is
/// stated: the specifications cannot look inside a `Duration`.
#[verifier::external_body]
fn zero_duration() -> Duration {
    Duration::default()
}

/// `std::collections::HashMap::get_mut`, on a key that is present: a
/// mutable borrow of the value under `id`, and the map holds whatever
/// the borrow leaves there.
#[verifier::external_body]
fn live_entry(nodes: &mut HashMap<usize, Node>, id: usize) -> (r: &mut Node)
    requires
        old(nodes)@.contains_key(id),
    ensures
        *r == old(nodes)@[id],
        final(nodes)@ == old(nodes)@.insert(id, *final(r)),
{
    nodes.get_mut(&id).expect("live node")
}

/// The nodes, the next id to hand out, the app state and the frame
/// delta.
pub struct World {
    nodes: HashMap<usize, Node>,
    next: usize,
    pub doc: Doc,
    pub delta: Duration,
}

impl Default for World {
    fn default() -> (r: World)
        ensures
            r.nodes().is_empty(),
            r.next_id() == 0,
            r.wf(),
            r.doc_value().title@ == Seq::<char>::empty(),
            !r.doc_value().dirty,
    {
        World { nodes: HashMap::new(), next: 0, doc: Doc::default(), delta: zero_duration() }
    }
}

impl World {
    /// The live nodes by id.
    pub closed spec fn nodes(&self) -> Map<usize, Node> {
        self.nodes@
    }

    /// The id the next inserted node gets.
    pub closed spec fn next_id(&self) -> usize {
        self.next
    }

    /// The app state.
    pub closed spec fn doc_value(&self) -> Doc {
        self.doc
    }

    /// The frame delta.
    pub closed spec fn delta_value(&self) -> Duration {
        self.delta
    }

    /// Every live id was handed out already, and every parent link
    /// points to a smaller id.
    pub open spec fn wf(&self) -> bool {
        &&& forall|k: usize| #[trigger] self.nodes().contains_key(k) ==> k < self.next_id()
        &&& forall|k: usize|
            #[trigger] self.nodes().contains_key(k) ==> (self.nodes()[k].parent_link() matches Some(
                p,
            ) ==> p < k)
    }

    /// A world holding nothing but a root, and that root.
    pub fn with_root() -> (r: (Self, usize))
        ensures
            r.1 == 0,
            r.0.nodes().dom() == set![0usize],
            r.0.nodes()[0].parent_link() is None,
            r.0.nodes()[0].text_view() == Seq::<char>::empty(),
            r.0.nodes()[0].size_value() == 0,
            r.0.nodes()[0].padding_value() == 0,
            r.0.next_id() == 1,
            r.0.wf(),
    {
        let mut world = Self::default();
        let root = world.insert(Node::default());
        proof {
            assert(world.nodes().dom() =~= set![0usize]);
        }
        (world, root)
    }

    /// Stores `node` under a fresh id and returns that id.
    fn insert(&mut self, node: Node) -> (id: usize)
        requires
            old(self).next_id() < usize::MAX,
        ensures
            id == old(self).next_id(),
            final(self).next_id() == id + 1,
            final(self).nodes() == old(self).nodes().insert(id, node),
            final(self).doc_value() == old(self).doc_value(),
            final(self).delta_value() == old(self).delta_value(),
    {
        let id = self.next;
        self.next = self.next + 1;
        self.nodes.insert(id, node);
        id
    }

    /// Mutable access to the live node `id`.
    pub fn node(&mut self, id: usize) -> (r: &mut Node)
        requires
            old(self).nodes().contains_key(id),
        ensures
            *r == old(self).nodes()[id],
            final(self).nodes() == old(self).nodes().insert(id, *final(r)),
            final(self).next_id() == old(self).next_id(),
            final(self).doc_value() == old(self).doc_value(),
            final(self).delta_value() == old(self).delta_value(),
    {
        live_entry(&mut self.nodes, id)
    }

    /// The live node `id`.
    pub fn get(&self, id: usize) -> (r: &Node)
        requires
            self.nodes().contains_key(id),
        ensures
            *r == self.nodes()[id],
    {
        self.nodes.get(&id).expect("live node")
    }
}

/// A watch predicate that fires on the first flush and never again, the
/// way a one-shot bootstrap build does.
pub struct Once {
    pending: bool,
}

impl Once {
    /// Whether the next [`Once::fire`] fires.
    pub closed spec fn is_pending(&self) -> bool {
        self.pending
    }

    /// Fires the first time it is asked, and never after.
    pub fn fire(&mut self) -> (r: bool)
        ensures
            r == old(self).is_pending(),
            !final(self).is_pending(),
    {
        let was = self.pending;
        self.pending = false;
        was
    }
}

/// A fresh one-shot predicate, still pending.
pub fn once() -> (r: Once)
    ensures
        r.is_pending(),
{
    Once { pending: true }
}

/// A one-shot predicate fires exactly once: in any run of calls of
/// [`Once::fire`] on a fresh predicate (`states[i]` before call `i`,
/// `results[i]` what it returned), the first call returns `true` and
/// every later call `false`.
pub proof fn law_once_fires_first(states: Seq<Once>, results: Seq<bool>)
    requires
        states.len() == results.len() + 1,
        states[0].is_pending(),
        forall|i: int|
            0 <= i < results.len() ==> #[trigger] results[i] == states[i].is_pending() && !states[i + 1].is_pending(),
    ensures
        forall|i: int| 0 <= i < results.len() ==> #[trigger] results[i] == (i == 0),
{
    assert forall|i: int| 0 <= i < results.len() implies #[trigger] results[i] == (i == 0) by {
        if i > 0 {
            assert(results[i - 1] == states[i - 1].is_pending() && !states[i - 1 + 1].is_pending());
        }
    }
}

/// Whether `k` is the live child of `node`.
pub open spec fn is_child_of(nodes: Map<usize, Node>, k: usize, node: usize) -> bool {
    nodes.contains_key(k) && nodes[k].parent_link() == Some(node)
}

/// The live children of `node` among the ids below `n`, in increasing
/// order.
pub open spec fn children_below(nodes: Map<usize, Node>, node: usize, n: usize) -> Seq<usize>
    decreases n,
{
    if n == 0 {
        Seq::empty()
    } else {
        let k = (n - 1) as usize;
        let rest = children_below(nodes, node, k);
        if is_child_of(nodes, k, node) {
            rest.push(k)
        } else {
            rest
        }
    }
}

/// Whether `k` lies in the subtree rooted at `root`: it is `root`, or
/// it is live and its parent, a smaller id, lies in that subtree.
pub open spec fn in_subtree(nodes: Map<usize, Node>, k: usize, root: usize) -> bool
    decreases k,
{
    if k == root {
        true
    } else if nodes.contains_key(k) {
        match nodes[k].parent_link() {
            Some(p) => if p < k {
                in_subtree(nodes, p, root)
            } else {
                false
            },
            None => false,
        }
    } else {
        false
    }
}

/// The ids in the subtree rooted at `root`.
pub open spec fn subtree_keys(nodes: Map<usize, Node>, root: usize) -> Set<usize> {
    Set::new(|k: usize| in_subtree(nodes, k, root))
}

/// `children_below` holds exactly the live children below `n`, in
/// strictly increasing order.
pub proof fn lemma_children_below(nodes: Map<usize, Node>, node: usize, n: usize)
    ensures
        forall|x: usize|
            children_below(nodes, node, n).contains(x) <==> (x < n && is_child_of(nodes, x, node)),
        forall|i: int, j: int|
            0 <= i < j < children_below(nodes, node, n).len() ==> children_below(nodes, node, n)[i]
                < children_below(nodes, node, n)[j],
        forall|i: int|
            0 <= i < children_below(nodes, node, n).len() ==> children_below(nodes, node, n)[i] < n,
    decreases n,
{
    if n > 0 {
        let k = (n - 1) as usize;
        lemma_children_below(nodes, node, k);
        let rest = children_below(nodes, node, k);
        if is_child_of(nodes, k, node) {
            assert forall|x: usize|
                children_below(nodes, node, n).contains(x) <==> (x < n && is_child_of(
                    nodes,
                    x,
                    node,
                )) by {
                if x == k {
                    assert(rest.push(k)[rest.len() as int] == k);
                }
                if rest.push(k).contains(x) && x != k {
                    let i = choose|i: int| 0 <= i < rest.push(k).len() && rest.push(k)[i] == x;
                    assert(rest[i] == x);
                }
                if rest.contains(x) {
                    let i = choose|i: int| 0 <= i < rest.len() && rest[i] == x;
                    assert(rest.push(k)[i] == x);
                }
            }
        }
    }
}

/// A subtree only holds ids at least as large as its root.
pub proof fn lemma_subtree_above_root(nodes: Map<usize, Node>, k: usize, root: usize)
    requires
        in_subtree(nodes, k, root),
    ensures
        root <= k,
    decreases k,
{
    if k != root {
        let p = nodes[k].parent_link()->0;
        lemma_subtree_above_root(nodes, p, root);
    }
}

/// Two subtrees that share an id are nested.
pub proof fn lemma_subtrees_nested(nodes: Map<usize, Node>, k: usize, a: usize, b: usize)
    requires
        in_subtree(nodes, k, a),
        in_subtree(nodes, k, b),
    ensures
        in_subtree(nodes, a, b) || in_subtree(nodes, b, a),
    decreases k,
{
    if k != a && k != b {
        let p = nodes[k].parent_link()->0;
        lemma_subtrees_nested(nodes, p, a, b);
    }
}

/// A subtree of a subtree is part of it.
pub proof fn lemma_subtree_trans(nodes: Map<usize, Node>, k: usize, a: usize, b: usize)
    requires
        in_subtree(nodes, k, a),
        in_subtree(nodes, a, b),
    ensures
        in_subtree(nodes, k, b),
    decreases k,
{
    if k != a {
        let p = nodes[k].parent_link()->0;
        lemma_subtree_trans(nodes, p, a, b);
    }
}

/// Every id of a subtree but its root lies under one live child of
/// that root.
pub proof fn lemma_subtree_under_child(nodes: Map<usize, Node>, k: usize, root: usize) -> (c: usize)
    requires
        in_subtree(nodes, k, root),
        k != root,
    ensures
        is_child_of(nodes, c, root),
        root < c,
        in_subtree(nodes, k, c),
    decreases k,
{
    let p = nodes[k].parent_link()->0;
    if p == root {
        k
    } else {
        let c = lemma_subtree_under_child(nodes, p, root);
        assert(in_subtree(nodes, k, c));
        c
    }
}

/// The subtrees of two distinct children of one node are disjoint.
pub proof fn lemma_sibling_subtrees_disjoint(
    nodes: Map<usize, Node>,
    k: usize,
    a: usize,
    b: usize,
    node: usize,
)
    requires
        is_child_of(nodes, a, node),
        is_child_of(nodes, b, node),
        node < a,
        node < b,
        a != b,
    ensures
        !(in_subtree(nodes, k, a) && in_subtree(nodes, k, b)),
{
    if in_subtree(nodes, k, a) && in_subtree(nodes, k, b) {
        lemma_subtrees_nested(nodes, k, a, b);
        if in_subtree(nodes, a, b) {
            lemma_subtree_above_root(nodes, node, b);
        } else {
            lemma_subtree_above_root(nodes, node, a);
        }
    }
}

/// The backend the doc examples run on: ids are `usize`, the world is a
/// [`World`].
pub struct FynixHost;

impl FynixHost {
    /// The time since the last frame.
    pub fn delta(world: &World) -> (r: Duration)
        ensures
            r == world.delta_value(),
    {
        world.delta
    }

    /// Spawns a blank node under `parent` and returns its id.
    pub fn spawn(world: &mut World, parent: usize) -> (r: usize)
        requires
            old(world).next_id() < usize::MAX,
        ensures
            r == old(world).next_id(),
            final(world).next_id() == r + 1,
            final(world).nodes() == old(world).nodes().insert(r, final(world).nodes()[r]),
            final(world).nodes()[r].parent_link() == Some(parent),
            final(world).nodes()[r].text_view() == Seq::<char>::empty(),
            final(world).nodes()[r].size_value() == 0,
            final(world).nodes()[r].padding_value() == 0,
            final(world).doc_value() == old(world).doc_value(),
            final(world).delta_value() == old(world).delta_value(),
            old(world).wf() && parent < old(world).next_id() ==> final(world).wf(),
    {
        let blank = Node::default();
        let node = Node { parent: Some(parent), text: blank.text, size: blank.size, padding: blank.padding };
        world.insert(node)
    }

    /// Whether `node` is live.
    pub fn node_exists(world: &World, node: usize) -> (r: bool)
        ensures
            r == world.nodes().contains_key(node),
    {
        world.nodes.contains_key(&node)
    }

    /// The live children of `node`, in increasing id order.
    pub fn children(world: &World, node: usize) -> (r: Vec<usize>)
        ensures
            r@ == children_below(world.nodes(), node, world.next_id()),
            world.wf() ==> forall|x: usize| r@.contains(x) <==> is_child_of(world.nodes(), x, node),
            forall|i: int, j: int| 0 <= i < j < r@.len() ==> r@[i] < r@[j],
    {
        let mut kids: Vec<usize> = Vec::new();
        let mut k: usize = 0;
        while k < world.next
            invariant
                k <= world.next_id(),
                kids@ == children_below(world.nodes(), node, k),
            decreases world.next_id() - k,
        {
            match world.nodes.get(&k) {
                Some(n) => match n.parent {
                    Some(p) => {
                        if p == node {
                            kids.push(k);
                        }
                    },
                    None => {},
                },
                None => {},
            }
            k = k + 1;
        }
        proof {
            lemma_children_below(world.nodes(), node, world.next_id());
        }
        kids
    }

    /// Removes `node` and everything under it.
    pub fn despawn(world: &mut World, node: usize)
        requires
            old(world).wf(),
        ensures
            final(world).nodes() == old(world).nodes().remove_keys(subtree_keys(old(world).nodes(), node)),
            final(world).next_id() == old(world).next_id(),
            final(world).doc_value() == old(world).doc_value(),
            final(world).delta_value() == old(world).delta_value(),
            final(world).wf(),
        decreases old(world).next_id() - node,
    {
        let ghost orig = world.nodes();
        let kids = Self::children(world, node);
        proof {
            lemma_children_below(orig, node, world.next_id());
            assert(orig_left(orig, kids@, 0, world.nodes()));
        }
        let mut i: usize = 0;
        while i < kids.len()
            invariant
                i <= kids@.len(),
                world.wf(),
                world.next_id() == old(world).next_id(),
                world.doc_value() == old(world).doc_value(),
                world.delta_value() == old(world).delta_value(),
                orig == old(world).nodes(),
                old(world).wf(),
                forall|x: usize| kids@.contains(x) <==> is_child_of(orig, x, node),
                forall|a: int, b: int| 0 <= a < b < kids@.len() ==> kids@[a] < kids@[b],
                orig_left(orig, kids@, i as int, world.nodes()),
            decreases kids@.len() - i,
        {
            let c = kids[i];
            let ghost before = world.nodes();
            proof {
                assert(kids@.contains(c));
                assert(is_child_of(orig, c, node));
                assert(c < world.next_id());
                assert forall|k: usize| in_subtree(orig, k, c) implies !removed_before(
                    orig,
                    kids@,
                    i as int,
                    k,
                ) by {
                    if removed_before(orig, kids@, i as int, k) {
                        let j = choose|j: int| 0 <= j < i && #[trigger] in_subtree(orig, k, kids@[j]);
                        assert(kids@.contains(kids@[j]));
                        lemma_sibling_subtrees_disjoint(orig, k, kids@[j], c, node);
                    }
                }
                assert forall|k: usize| #[trigger] in_subtree(before, k, c) == in_subtree(orig, k, c) by {
                    lemma_subtree_same(orig, before, k, c, i as int, kids@);
                }
                assert(subtree_keys(before, c) =~= subtree_keys(orig, c));
            }
            Self::despawn(world, c);
            proof {
                assert forall|k: usize|
                    world.nodes().contains_key(k) <==> (orig.contains_key(k) && !removed_before(
                        orig,
                        kids@,
                        i + 1,
                        k,
                    )) by {
                    if removed_before(orig, kids@, i + 1, k) {
                        let j = choose|j: int| 0 <= j < i + 1 && #[trigger] in_subtree(orig, k, kids@[j]);
                        if j < i {
                            assert(removed_before(orig, kids@, i as int, k));
                        }
                    }
                    if removed_before(orig, kids@, i as int, k) {
                        let j = choose|j: int| 0 <= j < i && #[trigger] in_subtree(orig, k, kids@[j]);
                        assert(removed_before(orig, kids@, i + 1, k));
                    }
                    if in_subtree(orig, k, c) {
                        assert(in_subtree(orig, k, kids@[i as int]));
                        assert(removed_before(orig, kids@, i + 1, k));
                    }
                }
                assert(orig_left(orig, kids@, i + 1, world.nodes()));
            }
            i = i + 1;
        }
        world.nodes.remove(&node);
        proof {
            assert forall|k: usize| #[trigger]
                subtree_keys(orig, node).contains(k) == (k == node || removed_before(
                    orig,
                    kids@,
                    kids@.len() as int,
                    k,
                )) by {
                if in_subtree(orig, k, node) && k != node {
                    let c = lemma_subtree_under_child(orig, k, node);
                    assert(kids@.contains(c));
                    let j = choose|j: int| 0 <= j < kids@.len() && kids@[j] == c;
                    assert(in_subtree(orig, k, kids@[j]));
                }
                if removed_before(orig, kids@, kids@.len() as int, k) {
                    let j = choose|j: int| 0 <= j < kids@.len() && #[trigger] in_subtree(orig, k, kids@[j]);
                    assert(kids@.contains(kids@[j]));
                    assert(in_subtree(orig, node, node));
                    assert(in_subtree(orig, kids@[j], node));
                    lemma_subtree_trans(orig, k, kids@[j], node);
                }
            }
            assert(world.nodes() =~= orig.remove_keys(subtree_keys(orig, node)));
        }
    }
}

/// Whether `k` lies under one of the first `i` of `kids`.
spec fn removed_before(orig: Map<usize, Node>, kids: Seq<usize>, i: int, k: usize) -> bool {
    exists|j: int| 0 <= j < i && #[trigger] in_subtree(orig, k, kids[j])
}

/// Whether `m` is `orig` with the subtrees of the first `i` of `kids`
/// taken out.
spec fn orig_left(orig: Map<usize, Node>, kids: Seq<usize>, i: int, m: Map<usize, Node>) -> bool {
    &&& forall|k: usize| #[trigger]
        m.contains_key(k) <==> (orig.contains_key(k) && !removed_before(orig, kids, i, k))
    &&& forall|k: usize| #[trigger] m.contains_key(k) ==> m[k] == orig[k]
}

/// The subtree of `c` reads the same in `before`, which is `orig` with
/// the subtrees of the first `i` of `kids` taken out, when none of
/// `c`'s subtree was among them.
proof fn lemma_subtree_same(
    orig: Map<usize, Node>,
    before: Map<usize, Node>,
    k: usize,
    c: usize,
    i: int,
    kids: Seq<usize>,
)
    requires
        orig_left(orig, kids, i, before),
        forall|x: usize| in_subtree(orig, x, c) ==> !removed_before(orig, kids, i, x),
    ensures
        in_subtree(before, k, c) == in_subtree(orig, k, c),
    decreases k,
{
    if k != c {
        if before.contains_key(k) {
            assert(before[k] == orig[k]);
            match orig[k].parent_link() {
                Some(p) => if p < k {
                    lemma_subtree_same(orig, before, p, c, i, kids);
                },
                None => {},
            }
        } else if orig.contains_key(k) {
            if in_subtree(orig, k, c) {
                assert(!removed_before(orig, kids, i, k));
                assert(false);
            }
        }
    }
}

/// The pointer is over this node. Tags are plain types.
#[derive(Clone, Copy, PartialEq, Eq, Structural)]
pub struct Hovered;

/// Writes a label's text into its node.
pub struct WriteText;

impl WriteText {
    /// Sets the text of the live node `id` to `text`.
    pub fn patch(world: &mut World, id: usize, text: &String)
        requires
            old(world).nodes().contains_key(id),
        ensures
            final(world).nodes().dom() == old(world).nodes().dom(),
            forall|k: usize| #[trigger]
                old(world).nodes().contains_key(k) && k != id ==> final(world).nodes()[k] == old(world).nodes()[k],
            final(world).nodes()[id].text_view() == text@,
            final(world).nodes()[id].size_value() == old(world).nodes()[id].size_value(),
            final(world).nodes()[id].padding_value() == old(world).nodes()[id].padding_value(),
            final(world).nodes()[id].parent_link() == old(world).nodes()[id].parent_link(),
            final(world).next_id() == old(world).next_id(),
            final(world).doc_value() == old(world).doc_value(),
            final(world).delta_value() == old(world).delta_value(),
    {
        world.node(id).text = text.clone();
        proof {
            assert(final(world).nodes().dom() =~= old(world).nodes().dom());
        }
    }
}

/// Writes a font size into a node.
pub struct WriteSize;

impl WriteSize {
    /// Sets the size of the live node `id` to `size`.
    pub fn patch(world: &mut World, id: usize, size: &u32)
        requires
            old(world).nodes().contains_key(id),
        ensures
            final(world).nodes().dom() == old(world).nodes().dom(),
            forall|k: usize| #[trigger]
                old(world).nodes().contains_key(k) && k != id ==> final(world).nodes()[k] == old(world).nodes()[k],
            final(world).nodes()[id].size_value() == *size,
            final(world).nodes()[id].text_view() == old(world).nodes()[id].text_view(),
            final(world).nodes()[id].padding_value() == old(world).nodes()[id].padding_value(),
            final(world).nodes()[id].parent_link() == old(world).nodes()[id].parent_link(),
            final(world).next_id() == old(world).next_id(),
            final(world).doc_value() == old(world).doc_value(),
            final(world).delta_value() == old(world).delta_value(),
    {
        world.node(id).size = *size;
        proof {
            assert(final(world).nodes().dom() =~= old(world).nodes().dom());
        }
    }
}

/// Writes padding into a node.
pub struct WritePadding;

impl WritePadding {
    /// Sets the padding of the live node `id` to `padding`.
    pub fn patch(world: &mut World, id: usize, padding: &u32)
        requires
            old(world).nodes().contains_key(id),
        ensures
            final(world).nodes().dom() == old(world).nodes().dom(),
            forall|k: usize| #[trigger]
                old(world).nodes().contains_key(k) && k != id ==> final(world).nodes()[k] == old(world).nodes()[k],
            final(world).nodes()[id].padding_value() == *padding,
            final(world).nodes()[id].text_view() == old(world).nodes()[id].text_view(),
            final(world).nodes()[id].size_value() == old(world).nodes()[id].size_value(),
            final(world).nodes()[id].parent_link() == old(world).nodes()[id].parent_link(),
            final(world).next_id() == old(world).next_id(),
            final(world).doc_value() == old(world).doc_value(),
            final(world).delta_value() == old(world).delta_value(),
    {
        world.node(id).padding = *padding;
        proof {
            assert(final(world).nodes().dom() =~= old(world).nodes().dom());
        }
    }
}

} // verus!
