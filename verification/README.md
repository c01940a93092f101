# gpui (verified core)

The logic of a GPU-accelerated UI framework's accessibility layer and GPU
selection, written in Verus and proved against its contracts.

Layout:

- `src/builder.rs` — `A11yNodeBuilder`: builds a frame's accessibility tree from
  nested `push`/`pop` calls, suppresses subtrees (pruning what was already
  emitted below them), supports prepaint snapshots, and finalizes into a tree
  whose child references and focus are consistent. The contracts see every
  node as its ID, the `accesskit::Node` and the list of its children's IDs, so
  the shape of a finished tree follows from the calls that built it.
  `finalize_with_report` also says what was wrong with a frame (nodes left
  open, ambient suppression left open, a focus or child references outside
  the tree), for the caller to log.
- `src/shape.rs` — the invariant every state of a frame keeps, and the proof
  that `finalize` hands out one tree rooted at the window's root: distinct IDs,
  one parent for every other node, every node reachable from the root.
- `src/a11y.rs` — `A11y`: per-window state; assigns each element a stable,
  unique node ID, sweeps IDs of elements not visited in a frame and the per-node
  maps of nodes not in the finished tree, and rolls prepaint work back.
- `src/adapter.rs` — ranks GPU adapters, lists them in a stable priority order
  and picks the first one of best rank.
- `src/pci.rs` — parses PCI vendor/device IDs, and proves that every ID reads
  back from its four-digit hexadecimal form.
- `src/style.rs` — the mouse-cursor style of an element.
- `src/node.rs`, `src/stack.rs` — the contracts assumed of `accesskit::Node`
  and of the `smallvec::SmallVec` that holds the open nodes.
- `app/` — what the verifier does not see: creating the wgpu context (GPU and
  environment access), converting a finished tree into `accesskit::TreeUpdate`,
  logging what `finalize_with_report` found,
  and the floating-point computation of a node's bounds.
