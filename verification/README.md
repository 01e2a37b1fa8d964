# rapyd

Template walks for a small web component framework: the compact
instructions (`In`, `Out`, `Over`, `Replace`, `Event`) that lead a renderer
from a template's first node to each of its placeholders, the builders that
compute them from a parsed template, and the components that follow them.

## Layout

- `src/` — the library, verified with Verus. The walk steps and how they
  merge (`walk`, `walk_iterator`), what a walk sequence means as a path
  through the node tree (`nav`), the eager and lazy walk builders (`html`,
  `walk_stream`), from a macro's input tokens to a template's walks through the
  `syn-rsx` parser (`template`), where the placeholders of a template are and the proof
  that the built walks mark them wherever no element's children begin
  with a descent of more than one level (`placeholders`; the walks hold
  one `Replace` per block for every template), depth-first traversal
  (`depth_first`), following walks through a rendered template given as
  node tables (`dom`, `render`, `fine_grained`, `nested_walk`), the state
  variables and traits of components (`scope_state`, `state`, `reactive`,
  `component`), the components (`sum_component`, `click_counter`) and the
  reading of `#[scope]` attributes (`scope_struct`).
- `tests/` — tests of the library on concrete values.
- `app/` — the glue the verifier does not see: writing tokens with `quote`, reading and changing the document with
  `web-sys`, and the `RefCell`-shared state handles of components.
