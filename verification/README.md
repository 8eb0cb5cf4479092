# Scribe

The backend of the Scribe text editor, written in Verus: its logic carries
contracts that the verifier proves.

- `src/domain/document`: UTF-8 text buffers (a piece table and a piece tree),
  the line index, positions, selections and cursor movement, edits, change sets,
  undo history, and the `Document` that ties them together. Laws such as "undo
  restores the text a transaction started from" and "offsets and positions lead
  back to each other" are public proof functions.
- `src/application`: the editor service (documents opened through sessions,
  stale-revision checks, saving, viewports), its stores, the commands and
  snapshots it hands out, and the dispatcher of the editor runtime.
- `src/infrastructure`: the file system interface the service reads and writes
  through.
- `src/interface/ipc/dto`: the IPC request and reply types and their conversions.
- `app/`: the unverified shell: files on the local disk, the runtime thread, the
  serde forms of the IPC types and the Tauri commands.
- `tests/`: tests run against the compiled library.
