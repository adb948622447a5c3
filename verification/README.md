# codon_core

The decisions behind an editor's panes, jump hints, shell verbs and command palette, as a
library verified with [Verus](https://github.com/verus-lang/verus).

- `src/` is the library. Every function states in its contract what it returns or changes,
  over mathematical models of the types, and Verus proves it. What holds of several functions
  together is stated by the public proof functions whose names begin with `law_`.
- `tests/` runs the library on concrete values.
- `app/` is what surrounds the library: floating-point geometry, processes, clocks, and the
  forms of its types that are read from and written to settings.

| module            | what it decides                                                         |
|-------------------|-------------------------------------------------------------------------|
| `pane_group`      | splitting, removing, moving, swapping, resizing and drawing panes       |
| `layout_snapshot` | what is captured of a pane layout and what is put in its place          |
| `modal_layer`     | which modal is shown and where the focus goes when it is hidden         |
| `clickables`      | which painted elements can be clicked now                               |
| `editor_jump`     | the words and URLs of an editor that a jump can go to                   |
| `terminal_jump`   | the words and URLs of a terminal that a jump can go to                  |
| `jumplist`        | the places that panes remember, the most recent first                   |
| `shell`           | what running a command on every selection does to text and selections   |
| `palette`         | which actions the command palette shows                                 |

Functions of outside crates and of the standard library stand behind functions marked
`#[verifier::external_body]`, or get their contract from an `assume_specification`, in `text`,
`editor_jump`, `terminal_jump` and `shell`; doc comments say what is taken for granted of each.
