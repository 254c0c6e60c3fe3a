# valheim-mods-tui

A terminal browser for Valheim 1.0 mods on Thunderstore: browse the mods that
are current for Valheim 1.0, walk their dependency trees, select what you want,
and install it into a server's BepInEx directory.

The library under `src/` is written in Verus and verified: every function
states what it returns in its contract, and the proofs are checked.

- `app` — the browser's state machine: keys in, state and work to start out.
- `view` — what each part of the screen says, as styled text.
- `index`, `roots`, `rows`, `plan`, `sort`, `keyset` — the catalogue, the
  filtered and sorted list, the dependency tree rows, and install plans.
- `thunderstore` — the mod model, the 1.0 signals, the catalogue built from
  the package list, and cache freshness.
- `archive`, `install` — reading a downloaded package (through `zip`) and
  deciding where each entry goes.
- `compose` — writing the mod list into a `.env` file or a compose service.
- `detect`, `config`, `installed`, `update` — finding installs, resolving the
  install path, what is installed, and self-update decisions.
- `text`, `lines`, `paths` — text helpers and the `std::path` calls.

`app/` is the program around it: the terminal, threads, network, files and
the serde forms of the library's types.
