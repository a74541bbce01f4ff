# fynix

The verified core of a retained-mode UI toolkit, written in Verus.

`src/` holds what is proved:

- `id` — generational ids and the generator that hands them out and
  recycles them; a new id never equals a live one.
- `style` — the style builder, the committed style tree, its removal and
  its resolution (the nearest style that sets a field wins).
- `scope` — style scoping while a tree is built: a nested scope gives back
  the outer one when it ends.
- `element` — element metadata (parent, primary style), the dirty set,
  subtree removal with the styles the removed elements own, the
  bubbling path, the anchor chain of an overlay and the painting order.
- `signal` — which signals exist, which changed since last asked, and
  the scopes registered on each.
- `interaction` — what a handler is given, and whether bubbling goes on.
- `gesture`, `presses` — the pointer state machines: press, drag, click,
  hover, cancel.
- `overlay` — the decisions behind placing an overlay next to its anchor.
- `columns` — the column a stored type owns in a heterogeneous table.
- `host` — a small in-memory backend: nodes in a hash map, spawning and
  despawning subtrees.
- `collections` — the `hashbrown` maps and sets and the `sparse_map`
  lists behind the above, each behind functions whose contracts state
  what the crate's methods do.

`app/` is ordinary Rust around the core: typed storage behind `Any`, the
build context, handler dispatch, watches and bindings, and the
floating-point geometry of pointer input and overlay placement.

`tests/` drives the library the way a backend does.
