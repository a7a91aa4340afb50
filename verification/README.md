# kelaunch

A keyboard-driven application launcher for the terminal: it reads the
freedesktop `.desktop` entries, keeps a count of launches per application, and
fuzzy-searches the entries as the user types.

- `src/` is the library, verified with Verus: the desktop-entry parser
  (`entry`), locale matching (`locale`), the launch history and its text form
  (`history`), fuzzy matching and search (`collection`), the launcher's answers
  to keys and its launch decisions (`application`), the theme and what each frame shows, with
  the screen split by ratatui's layout (`theme`, `ui`), and the character-level helpers they share (`text`).
- `app/` is the program around it: directory walking, files, environment
  variables, the terminal interface, process launching and notifications.
- `tests/` runs the library on concrete inputs.
