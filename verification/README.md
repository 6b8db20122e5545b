# hypr_session

Saves and restores a Hyprland session. A restore moves the windows that are open already to
their saved places, launches the others and positions them as they appear, and puts the tabbed
groups together again.

`src/` is a library, verified with Verus:

- `ipc` writes the calls of `hyprctl`, for stock Hyprland and for the `hyprland-lua` plugin, and
  judges the replies; it also reads what `/proc` says about the process behind a window.
- `restore` recognises saved windows among open ones, decides how each is launched and placed,
  finds the groups, and takes a restore one request at a time (`restore::session`).
  `restore::course` and `restore::ending` state what holds of every restore and why it ends,
  `restore::merging` that merging is on whenever a group is put together, and
  `restore::assembly` what the steps for a group do in a model of the compositor.
- `text`, `numbers`, `unicode` and `json` hold what these need of texts.

`app/` runs `hyprctl`, reads `/proc` and drives a restore: it performs each request and hands
back what came of it. `tests/` runs the library, restores against a small compositor among it.
