# lineme

A viewer for measureme profiling data (`.mm_profdata`): each thread's events
on a zoomable timeline, nested by depth, grouped per thread or with threads
whose spans do not overlap merged into shared lanes.

- `src/` is the library, verified with Verus: the data model, the loading
  pipeline (collecting events, the kind table, per-thread depths, duration
  levels with their shadow markers, root events, thread groups), the queries
  the timeline draws from, and the state of the open files with the
  decisions taken on each user action.
- `tests/` exercises the library on concrete data.
- `app/` is the `iced` application around it: windows, drawing, zoom and
  scrolling (floating point), file dialogs, and reading and decoding profiles with `analyzeme`.
