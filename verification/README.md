# deployer

The planning and decision logic of an interactive tool that deploys several
git repositories group by group, verified with Verus.

- `src/config.rs`: the configuration (groups of repositories, delays in
  milliseconds, root path, branch, commit message) and its defaults.
- `src/selection.rs`: a set of `(group, repository)` positions.
- `src/schedule.rs`: the execution timeline (when each group starts, how long
  the whole deployment takes), the per-group plan, the selection of every
  repository, and the configuration restricted to a selection; with the laws
  of the timeline.
- `src/git.rs`: the git commands of one repository's deployment as a step
  function (state and outcome in, next command out), with its laws.
- `src/tui.rs`: the selection screens as a step function over key presses,
  the repository presence check, the list rows, the rows of the drawn
  timeline and the key help; with the laws of the screens (cursor moves,
  the presence check over a whole run of the screens, deselection).
- `app/`: the program: arguments, reading the JSON configuration, drawing the
  screens, running git, waiting between groups.
