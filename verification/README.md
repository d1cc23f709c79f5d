# lighter

The logic of a small reactive UI framework, written in Verus and proved against its
contracts.

- `src/` is the library: the node tree kept in a slot map (`arena`, `slots`, `node`,
  `count`), dirty-flag bookkeeping (`flags`, `dirty`), the engine's decisions on pointer
  events, resizing and frames (`engine`), signals and bindings (`reactive`, `signal`), what
  happens when a signal changes (`propagation`), the delivery of clicks along the hit path
  (`event`), state-dependent properties and per-state style patches (`state`, `patches`), the
  interned property keys with their value kinds and dirty classes, and checked style patches
  (`registry`), running animations (`animation`), and small value types (`geometry`,
  `dimension`, `text`).
- `tests/` exercises the library on concrete values.
- `app/` is ordinary Rust around the library: elements and their styles, flexbox layout with
  taffy, hit testing, a text renderer, and an event loop driven by a Win32 window on Windows and by a
  scripted sequence of events elsewhere.
