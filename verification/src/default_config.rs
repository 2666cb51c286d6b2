//! The configuration that is written on the first run.
use vstd::prelude::*;

verus! {

/// The configuration that is written on the first run: eight palettes for the
/// default theme, each with a light variant.
pub const DEFAULT_CONFIG: &'static str = "# Colours for Herdr's workspaces.

# Colour workspaces that match no rule by hashing their directory onto the
# palettes. Same project, same colour, everywhere.
auto = true

# Where Herdr's config.toml is, if not in its usual place. $HERDR_CONFIG_PATH
# always wins.
# herdr_config = \"~/.config/herdr/config.toml\"

# Coloured rows in the sidebar, with a marker in front.
[sidebar]
enabled = true
marker = \"●\"

# Tint panes (needs the shell hook).
[pane]
tint = true

# Tint the terminal window around Herdr (Apple Terminal).
[window]
tint = true

# Pin a colour. Match by exact workspace `label`, or by `path`: a directory, so
# that every worktree below it shares its colour (the longest path wins).
# [[workspaces]]
# path = \"~/projects/api\"
# palette = \"blue\"
#
# [[workspaces]]
# label = \"Website\"
# palette = \"green\"

# Pin a colour to one agent session.
# [[agents]]
# session = \"0b6f2f1c\"
# palette = \"mauve\"

# Palettes are sets of theme.custom tokens. Values must be #rgb or #rrggbb.
# `pane_bg` and `window_bg` are optional; `light` is used on a light theme.

[palettes.red]
accent = \"#f38ba8\"
sidebar_bg = \"#2e1f26\"
active_row_bg = \"#402833\"

[palettes.red.light]
accent = \"#d20f39\"
sidebar_bg = \"#f2dfe3\"
active_row_bg = \"#ead0d6\"

[palettes.peach]
accent = \"#fab387\"
sidebar_bg = \"#2f251f\"
active_row_bg = \"#423229\"

[palettes.peach.light]
accent = \"#fe640b\"
sidebar_bg = \"#f7e4d9\"
active_row_bg = \"#f0d5c5\"

[palettes.yellow]
accent = \"#f9e2af\"
sidebar_bg = \"#2d2a20\"
active_row_bg = \"#3f3b2b\"

[palettes.yellow.light]
accent = \"#df8e1d\"
sidebar_bg = \"#f5ead7\"
active_row_bg = \"#ecdcc0\"

[palettes.green]
accent = \"#a6e3a1\"
sidebar_bg = \"#1f2c23\"
active_row_bg = \"#293d2f\"

[palettes.green.light]
accent = \"#40a02b\"
sidebar_bg = \"#e0eedd\"
active_row_bg = \"#d0e4cb\"

[palettes.teal]
accent = \"#94e2d5\"
sidebar_bg = \"#1e2c2d\"
active_row_bg = \"#273d3e\"

[palettes.teal.light]
accent = \"#179299\"
sidebar_bg = \"#dcecec\"
active_row_bg = \"#c9e1e2\"

[palettes.blue]
accent = \"#89b4fa\"
sidebar_bg = \"#1f2535\"
active_row_bg = \"#283248\"

[palettes.blue.light]
accent = \"#1e66f5\"
sidebar_bg = \"#dfe7f7\"
active_row_bg = \"#cdd9f1\"

[palettes.mauve]
accent = \"#cba6f7\"
sidebar_bg = \"#282135\"
active_row_bg = \"#372c49\"

[palettes.mauve.light]
accent = \"#8839ef\"
sidebar_bg = \"#eae1f6\"
active_row_bg = \"#dccef0\"

[palettes.pink]
accent = \"#f5c2e7\"
sidebar_bg = \"#2d212d\"
active_row_bg = \"#3f2c3f\"

[palettes.pink.light]
accent = \"#ea76cb\"
sidebar_bg = \"#f6e2f0\"
active_row_bg = \"#eed0e4\"
";

} // verus!
