# gitferry

GitFerry keeps local git repositories in sync between GitHub and Gitee: it
finds the repositories under a few folders, and for each enabled one carries
branches and tags from one platform to the other by fast-forward only,
stopping at divergences and leaving them to the user.

This crate is the library behind the app, verified with Verus.

## Layout

- `src/` — the verified library.
  - `text.rs`: text operations with their specifications (trimming, lines,
    searching, joining, decimal numbers).
  - `config.rs`: repositories, remotes, settings, accounts; the file paths.
  - `repo.rs`: which platform a remote URL belongs to; reading the remotes
    of a git `config`; finding a worktree's git directory.
  - `scanner.rs`: what the directory walk does with each entry and how deep
    it goes (the downloads folder only shallowly); the list of repository
    roots found, compared as paths.
  - `sync.rs`: sync states and conflicts; reading git's output; the tally of
    a sync and how it is summed up.
  - `engine.rs`: the sync of one repository as a state machine that asks
    for one git command at a time. Its contracts state every command it may
    ask for (explicit refspecs, no forced push, deletions only in mirror
    mode), what each outcome leads to, and a measure that decreases at every
    step.
  - `resolve.rs`: the forced pushes that settle conflicts in favour of the
    side the user chose.
  - `scheduler.rs`: back-off, which repositories a round takes, schedules,
    retries, token checks.
  - `state.rs`, `tray.rs`, `commands.rs`, `auth.rs`, `logging.rs`,
    `error.rs`: the in-memory sync states, the menu bar status, the
    configuration changes behind the app's commands, token checks, the log
    directory, errors.
- `tests/` — tests of the library, including whole syncs driven against a
  stand-in for git.
- `app/` — the Tauri app around the library: commands, the tray, the
  scheduler thread, running git, walking directories, the keychain, HTTP,
  `config.json` and logs.
- `extras/tauri.conf.json` — the app's Tauri configuration.
