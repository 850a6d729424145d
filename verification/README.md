# gitx-bounded

Indexing Git packs within a fixed amount of memory, verified with Verus.

A pack is read once, its delta tree is built and traversed, and the names of all
objects are sorted into an index. Whatever grows with the pack is kept in scratch
files, and memory that is shared with other work is asked for from a budget first.

- `src/` is the verified library. It holds no file and starts no thread: it says
  what has to be written, asks for what has to be read, and decides what is done
  next.
  - `budget`: the shared memory budget.
  - `sort`: stable external sorting.
  - `cache::delta`: the delta tree, from entries to resolved objects.
  - `cache::lru`, `cache::object`: caches that account for what they hold.
  - `index`: the pack index, its encoding and statistics.
  - `hash`, `object`, `data`, `bytes`: objects, their names, and numbers in bytes.
  - `open`, `repository`: the budget of a repository.
  - `harness`: what a measurement of memory use reads and computes.
- `tests/` runs the library with plain byte vectors in place of files.
- `app/` puts the library on files and threads.

What the library takes on trust are the calls into `gix_hash`, `gix_object`,
`clru` and a few functions of the standard library. Each is wrapped in a function
whose comment says what is claimed of it.
