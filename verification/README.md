# herdr-space-colors

Per-workspace colours for Herdr: the theme follows the workspace in focus, the
sidebar marks every workspace and pane with its colour, panes tint themselves,
and on Apple Terminal the window around Herdr does too.

The library under `src/` holds every decision, with contracts that Verus proves;
the tool under `app/` reads and writes files, calls Herdr and Terminal, and does
what the library says.

| Module | What it holds |
| --- | --- |
| `toml`, `tree` | TOML documents as `toml_edit` holds them, and what a reader sees of one |
| `plan`, `sidebar` | the edits of Herdr's configuration: theme tokens and sidebar rows |
| `own`, `aside`, `memo` | what in it is the user's: tables that stay, values that give way to a palette and come back, and the block that keeps them |
| `plan_laws`, `plan_kept`, `plan_read`, `plan_undo`, `plan_trail`, `plan_series` | what the edits undo, repeat and leave alone, one by one and in series |
| `palette`, `config`, `default_config` | palettes and the plugin's configuration |
| `rules` | edits of the plugin's configuration |
| `select` | which palette a workspace or a pane gets, and why |
| `herdr`, `json` | what Herdr answers |
| `sweep` | the tags in the sidebar |
| `commit` | putting an edited configuration in place, with backup, check and rollback |
| `window`, `window_runs` | the tint of the terminal window, step by step and in whole runs |
| `state` | what is remembered between runs, and the lock |
| `actions`, `report`, `cli` | what the commands decide, show and take |
| `text`, `keymap`, `paths` | texts, ordered maps and paths |

## What is the user's

- A value under `[theme.custom]` that a palette sets too gives way to the
  palette's colour, and comes back when the palette goes.
- A table that the user wrote and left empty stays.
- What has to be kept for that stands in a block of comments before the user's
  text, from `# space-colors begin` to `# space-colors end`. It is found wherever
  the user's additions have moved it, and goes with `clear`. Files that need none
  get none. Where the user's own text holds such a block, one is written before it,
  and the user's is left alone.
- What is managed is put on record as soon as an edited file has passed Herdr's
  check, before Herdr is told to reload it. Where that fails, the old file is put
  back.
