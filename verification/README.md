# emdock

A docking layout for egui: panels arranged in a binary tree of horizontal and
vertical splits whose leaves hold tabs, which can be dragged onto another
leaf's tab bar or beside it.

- `src/` is the verified library: the tree stored flat in a vector (children
  of node `n` at `2n + 1` and `2n + 2`), the builder operations, the render
  state setters, and docking, with contracts and proofs that docking keeps a
  well formed tree well formed and keeps every tab when the tree is well
  formed, when the tab goes into a tab bar, or when the target leaf's child
  slots hold no tab (docking beside a leaf overwrites those slots).
- `app/` draws the tree with egui every frame, does the floating-point
  geometry, and feeds pointer input to the library's docking operations.
