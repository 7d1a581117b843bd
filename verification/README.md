# creeper_cli

CreeperCLI serves a game project's script directory to the game editor over HTTP and
writes back the scripts the editor sends.

- `src/` is the library, verified with Verus: building the served tree from a directory
  listing, reducing it to what changed since the last poll, rendering it as the JSON the
  editor reads, decoding the editor's requests, planning the files to write, reading the
  settings, choosing the command, and picking the self-update asset.
- `app/` is the program around it: the HTTP server, the file system, the network and the
  terminal.
- `tests/` runs the library on concrete values.
