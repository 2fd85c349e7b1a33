# rustasshn

A tmux host picker for SSH, driven by `~/.ssh/config`.

The library in `src/` holds the logic, each function with a contract that
Verus proves:

- `text`: character-level helpers (trimming, comparison, decimal digits,
  splitting a text into lines).
- `paths`: `$VAR` and `~/` expansion against an environment snapshot, path
  joining, `Include` glob patterns.
- `sshconfig`: comment stripping, directives, host blocks, include splicing,
  merging files (last definition wins, sorted by alias), adding a host.
- `state`: favorites and recents, with their normalization laws.
- `search`: candidates and their ranking for a query.
- `picker`: the picker's state machine, one key press at a time.
- `screen`: the text and highlighting of each picker screen.
- `tmuxrun`: shell quoting, pane commands, tmux argument lists, log paths.
- `credentials`: keychain naming and the `security` calls to make.
- `cli`: option values, ssh destination parsing, askpass wiring.
- `termio`: the terminal reset sequence and when to stop draining input.
- `readback`: what a config file gives when read again after a host is
  added to it.

`app/` is the program around it: argument parsing, files, processes, the
terminal. `tests/` exercises the library on concrete values.
