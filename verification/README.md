# clt

A task list that lives in a git repository and is scoped to its branches.
Switching branches switches the list, a coding agent can write to the same list
over MCP, and markers in the source turn into tasks by themselves.

The library in `src/` holds the rules, written in Verus and proved against the
contracts of its functions. The program in `app/` reads and writes files, runs
git and hooks, and talks to the terminal and to agents.

## The library

| Module | What it is about |
| --- | --- |
| `task`, `time`, `text` | Tasks, states, locations; moments; text |
| `forest`, `cycles`, `repair` | The tree that parents make, and mending a broken one |
| `tree`, `store` | The displayed order, and the list in memory |
| `commands`, `states` | Filing, editing, moving, re-scoping, deleting; changing states |
| `scan`, `reconcile` | Finding markers, and bringing the list in line with them |
| `git`, `linkage` | What git says, and closing tasks from commit messages |
| `views`, `render` | Listings, searches, orphans and the log, as text |
| `journal`, `lock`, `hooks` | The audit log, waiting one's turn to write, hook scripts |
| `json`, `tools`, `mcp` | What an agent asks for, and how it is answered |
| `sharing`, `legacy`, `cli`, `error` | Committing the list, old lists, requests, refusals |

Each command is a function from the list and a request to the list afterwards,
what is said, what is recorded and which hooks to fire, or to the reason why it
is refused. Its contract says exactly which. Proof functions whose names begin
with `law_` state what holds of several of them together: that ids are never
reused, that no command splits a tree across branches, that closing cascades and
reopening does not, that a scan closes only what was harvested on the current
branch, that doing the same thing twice changes nothing.

## What is taken on trust

A few functions marked `external_body` call other crates or the standard
library. What is believed of each stands in its contract and, in words, in the
comment above it. They are in `text` (case folding, quoting), `time` (the clock
and calendar arithmetic of `chrono`), `git` (decoding bytes), `render`
(`anstyle` and `unicode-width`) and `json` (`serde_json`).

## Limits

Ids are 32 bits wide, and so are line numbers. A list that has run out of ids is
refused, not renumbered.
