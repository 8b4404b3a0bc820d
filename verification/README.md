# todo

A todo list whose tasks depend on one another, verified with Verus.

- `src/model/` — the list: tasks in a dependency graph (daggy's `StableDag`,
  reached through trusted wrappers in `graph.rs`), complete tasks in the order
  they were completed, incomplete tasks in layers (`layering.rs`); checking,
  restoring, blocking, unblocking, snoozing, removing, implicit priorities and
  due dates (`todo_list.rs`, `implicit.rs`); saving a list as plain parts and
  loading it back (`persist.rs`); what a focus is limited to (`focus.rs`).
- `src/printing.rs` — the text shown for tasks, warnings and errors.
- `src/time_format.rs` — reading times of day and focus predicates, and
  showing durations.
- `src/time_reading.rs` — what a time that a user types reads as: a span
  from now, a day, a calendar date or a time of day.
- `src/text_editing.rs` — the text editor interface and a fake editor.
- `app/` — what surrounds the library: JSON files, terminals, the user's
  editor, and placing dates on the calendar of a time zone.
- `tests/` — tests of the library.
