# smllm

Plumbing for command-line tools that plug into LLM agent harnesses, with
its behaviour stated in `requires` / `ensures` contracts and proved with
Verus.

The library decides; the program around it reads and writes.

- `src/harness/`: the parts a tool installs into a harness and their
  states. `region` owns one block between markers in an instructions file,
  `merge` owns entries in a JSON settings file (read and written through
  serde_json),
  `observe` and `state` say what the tree holds and whether it is current,
  `install` and `write` decide an install part by part and plan its
  writes, `flow` decides a whole install (the first refusal, or the
  complete plan and report) and a status report (no write at all) from
  what was read, `record` and `declined` read (through toml_edit) and render the
  TOML files that remember them.
- `src/hook/`: a hook's answer as JSON and the loop guard that blocks once
  per text.
- `src/report/`: findings, ordered and without repeats, as text or JSON.
- `src/smllm.rs`, `src/paths.rs`, `src/store.rs`, `src/host.rs`,
  `src/commands.rs`: the smllm tool's profile, directories, file names,
  command runner outcomes and command-line arguments.
- `src/graph.rs`, `src/listing.rs`, `src/statusline.rs`, `src/validate.rs`,
  `src/scaffold.rs`, `src/hook_flow.rs`: what smllm's commands show and
  decide around its engine: a machine's graph as text, Mermaid or JSON,
  the session and instance listings, the status-line row, the findings of
  `validate`, where `init` and `new` write, and the steps of a hook call.
- `src/greeting.rs`, `src/cli.rs`: the greeting of `sllm` and the exit-code
  conventions.
- `app/`: the `sllm` program, and the file, process and terminal side of
  the harness kit and of smllm's harness integration: it reads the tree,
  asks the library, and applies the plan the library made only once the
  library has decided the whole install.
- `tests/`: tests on concrete values, run against the compiled library.

The laws that span functions stand in `src/` as proof functions named
`law_*`: the region round trip, what a merge keeps and sets and that it
keeps the file's style, what an unmerge removes, the state table, what an
install leaves current, that an install after a forced one is settled
(for region, file and merge parts whose files are apart or, for merge
parts, shared with entry paths that part, given that the JSON parser
reads back what a merge wrote), that the record and a declined list read
back as written once parsed, the loop guard over a run of calls, the
ordering of a report, and when a hook call blocks.
