# tree_print

A desktop tool that shows a directory as a copyable tree and searches it for file names. Its
logic is a library verified with Verus.

- `src/`: the verified library
  - `filters`, `listing`: which entries are shown, and in what order
  - `line`, `walk`, `outline`: the lines of the tree, the walk that produces them step by step,
    and the proof that the walk shows the whole tree
  - `glob`, `text`, `highlight`: glob and substring matching, and the marking of matches
  - `size`, `time`, `number`: sizes, points in time and numbers as text
  - `channel`, `tree`, `search`, `session`: the state of the views and of the application
- `app/`: the window, the threads and the reading of the disk
- `tests/`: tests of the library

What the library takes on trust of the standard library and of `crossbeam-channel` is marked
`external_body` or `assume_specification`, each with a comment that says what is claimed.
