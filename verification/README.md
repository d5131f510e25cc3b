# rreact

A virtual DOM in the style of React, written in Verus with its behaviour
stated in contracts and proved.

- `src/vnode.rs`: the virtual node tree and its builder.
- `src/attrs.rs`: attribute maps, names kept in ascending order
  (`src/text.rs` holds that order on strings).
- `src/diff.rs`: reconciliation of two trees into a `Patch`; `spec_diff`
  says what it computes.
- `src/dom_bridge.rs`: the document tree that patches apply to, applying a
  patch (`spec_apply`), and turning a document into virtual nodes with
  styles merged in.
- `src/roundtrip.rs`: the proof that applying `diff(old, new)` to the
  document built from `old` gives the document built from `new` (up to
  attribute order), and that a tree diffed against itself gives `NoOp`.
- `src/hooks.rs`: component state (`use_state`, setters, re-render flags
  that a render of the instance clears).
- `src/app.rs`: the re-render loop (`App::mount`, `tick`, `tick_and_apply`).
- `app/`: the connection to `rhtml5` documents and `rcss3` stylesheets.
