# nelo

A stateless, timeline-driven animation engine for explorable visual
animations. Moments in a scene are independent of one another: everything is a
function of time.

The crate has two parts.

- `src/` is the verified library. It holds the scene graph: the entity store
  that hands out fresh ids, the registry of components filed by kind and kept
  sorted by entity, the hierarchy of parent and child links (which never
  loops), groups and the ways of splitting them into subgroups, the fonts the
  scene knows by name, and the walk a story makes when it applies an action to
  entities and groups. Every function there carries a contract, and the laws
  of the hierarchy (no cycles, ancestry is reflexive and transitive, children
  and parents agree), of splitting (every member is kept, in order) and of
  stories are proved.
- `app/` is the rest of the engine, in ordinary Rust on top of the library:
  timelines, easing, keyframes and paths, the fill, stroke, visibility and
  transform components, shapes and the camera, and stories with their
  actions. All of these sample time as floating point numbers.

Components in the library are values of one type `C` filed under a `TypeId`;
the application uses `Box<dyn Any>` for `C` and offers typed access on top.
