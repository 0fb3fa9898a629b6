# glint

A Git-aware prompt segment in the style of `zsh-git-prompt`'s
`git_super_status`, with its parsing and rendering verified by Verus.

- `src/text.rs`: character-level helpers (whitespace, decimal numbers,
  UTF-8 widths, trimming) with exact specifications.
- `src/git.rs`: the status model and the parser for
  `git status --porcelain=v2 --branch`, specified line by line.
- `src/render.rs`: the theme, its environment overrides, and the rendering
  of a status as `(<branch><tracking>|<local status>)`.
- `app/main.rs`: the command, which runs Git and prints the segment.
