# nimble

The logic of Nimble, a keyboard launcher whose commands are YAML files in a
config directory, written in Verus and proved against its contracts.

## Layout

- `src/` — the verified library.
  - `text.rs`: strings as character sequences, trimming.
  - `url.rs`: `{param}` substitution with form encoding, scheme checks,
    text validation; laws on placeholders, safe encoding and decoding.
  - `env.rs`: environment-variable keys, `env.yaml` files, the layered user
    environment, and the variables handed to scripts.
  - `commands.rs`: the command model, co-located file names, script
    output, the read order of command files and the assembly of loaded
    commands; laws on what loading keeps, which duplicate wins, and the
    order of kept commands.
  - `paths.rs`: the files `script:` and `list:` values name: plain names
    beside the command, or `${VAR}` substitution bounded by
    `allow_external_paths`.
  - `settings.rs`: application settings and their defaults.
  - `watcher.rs`: which file events matter, and the debounce state machine.
  - `launcher.rs`: the tray label and focus tracking.
- `tests/` — tests of the library.
- `app/` — the desktop shell: file and process I/O, the file watcher,
  clipboard and keystrokes, the Tauri window and tray. It hands the library
  plain values and acts on what comes back.
