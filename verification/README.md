# stash_cli

`stash` saves pipeline output and files as entries in a plain directory
(`$STASH_DIR`, or `~/.stash`): one data file and one attribute file per
entry, named by a lower-case ULID.  `stashd` watches the attribute
directory, and a sync daemon replicates attribute files between peers.

The library in `src/` holds the logic and is verified with Verus:

- `attrfile`, `json`: the attribute file format and the JSON entry format,
  with read-after-write laws;
- `store`, `ulid`, `paths`, `cache`: entry ids, reference resolution,
  attribute updates, newest-first listing and the list cache;
- `args`, `commands`, `selection`, `listing`, `lsview`, `dates`, `size`,
  `display`, `preview`, `ingest`: what each command decides and prints;
- `snapshot`, `replica`, `exchange`, `buckets`, `scan`, `session`,
  `events`, `watch`: snapshot ordering, local and remote changes, bucket
  summaries and the two sides of a sync conversation.

`app/` is the program around it: argument parsing, files, signals, the
terminal, file-system events and the network.  `tests/` exercises the
library on concrete values.
