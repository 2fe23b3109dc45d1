# fenestra

The decision-making core of a keyboard-driven tiling window manager for
Windows, verified with Verus.

- `src/` is the library: the configuration and action parsers, the key
  bindings, the groups, workspaces and monitors, and every decision taken on
  them (which window to focus, where windows go, what the hooks do). Each
  public function states what it does in its contract, and Verus proves it.
- `app/` is the program around it: logging, the configuration file, key
  names from the keyboard layout, and the system hooks.
- `tests/` runs the library on concrete values.
