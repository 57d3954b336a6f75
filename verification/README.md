# sidebar

A sidebar for tmux that lists the coding agents that run in its panes. One daemon per tmux server
watches the panes, the worktrees and their pull requests, and publishes snapshots; one client per
sidebar pane draws the newest snapshot and answers keys and mouse.

- `src/` is the logic, verified with Verus: how layouts are read and reflowed, how agents are
  ordered, grouped and folded, where selections rest, what is drawn where, and when the daemon and
  its workers act. Every public function states what it does in its contract. What holds across
  functions is stated by the proof functions named `law_*`.
- `tests/` runs the library on concrete values.
- `app/` is the plain Rust around it: threads, sockets, file watches, processes, the terminal, and
  the colors that are computed with floating point. What the rest of the program supplies to it is
  the trait `Host` in `app/host.rs`.

Functions marked `external_body`, and what is declared with `assume_specification` or
`external_type_specification`, are not proved: each says in its comment which outside function it
stands for and what is taken for granted of it.
