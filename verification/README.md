# qubit-infra-dependency

`rs-infra-dependency` gives an organization one small, readable baseline for
all third-party *direct* Rust dependencies, and makes every governed manifest
declare the requirement the baseline names.

The policy logic is written in Verus and proved against its contracts:

- `src/baseline.rs`: the text baseline grammar (`<package> <requirement>`
  lines, comments, duplicates) and TOML baselines with `[direct]` and
  `[resolved]` rules, with the rules kept sorted by package name.
- `src/rules.rs`: the `DP202`/`DP203` direct-dependency checks and the
  `DP401` resolved-version checks.
- `src/sync.rs`: planning and applying requirement edits to the
  `[dependencies]`, `[dev-dependencies]` and `[build-dependencies]` tables,
  proved to reach a manifest that plans nothing more.
- `src/inventory.rs`, `src/report.rs`: inventory summaries, conflicts and the
  Markdown renderings.
- `src/project_config.rs`, `src/source.rs`, `src/command_output.rs`,
  `src/cli.rs`: configuration validation, where a baseline is fetched from,
  how `git` and `cargo` output is read, and the command-line decisions.

Calls into `semver`, `toml_edit`, `url` and `camino` stand behind small
trusted wrappers whose contracts name what those crates compute.

`app/` holds the command itself: argument parsing with `clap`, file and
process I/O, `cargo metadata`, TOML deserialization and JSON output.
