# ssh_done

The verified core of a small local tool that sends a desktop notification when
an SSH session or a wrapped command finishes.

- `src/` is the library, verified with Verus:
  - `daemon.rs`: the session tracker (`SshTracker::observe`) that turns process
    table snapshots into session-end events, the SSH-client test on executable
    paths, the snapshot of SSH clients, and the text of session-end notifications,
    with the laws that tie successive observations together;
  - `wrap.rs`: the summary of a command line and the decision taken when a
    wrapped command ends (notification text, exit code to pass on);
  - `config.rs`: defaults, and reading the settings from a TOML document;
  - `util.rs`: compact durations (`3m 5s`);
  - `notify.rs`: notifications as plain values;
  - `text.rs`: character-level helpers (words, joining, decimal numerals).
- `app/` is the program around it: command-line parsing, reading the
  configuration file, polling the process table, spawning the wrapped command,
  and showing notifications.
- `tests/` runs the library on concrete values.
