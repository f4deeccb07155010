# goz

A file-name index for NTFS volumes, and the daemon that serves it: it reads a
volume's file table once, follows its change journal from there, and answers
queries over a named pipe.

`src/` is the library, verified with Verus:

- `wtf8`, `fold`, `search`, `bytes`, `seqs`, `stable`, `pieces`, `text`, `memo`:
  text as NTFS has it, its case folding, and what else the rest is built on.
- `usn`: journal records, the walk over a buffer of them, and whether a saved
  position can be resumed.
- `index`: the index of one volume. `model` says what it is; `store`, `frn_map`,
  `read`, `walk`, `update`, `journal`, `links`, `compact` and `report` do the work;
  `laws` states what holds across operations.
- `query`: the query language and the engine that runs a query on an index.
- `proto`: frames, requests, replies and the binary pages of results.
- `daemon`: queries over all volumes, their pages, the status, and what the
  tails, the supervisor, the connections and the service decide.
- `winfs`: what the outcomes of two Windows calls mean.

The contract of an exec function says what it returns or changes, but for which
moment the clock stands at and what word a shared atomic holds (`daemon/pulse`);
the functions named `law_*` state what relates several of them. The functions marked `external_body`
call into `std`, `memchr`, `rayon`, `rustc-hash` and `smallvec`, and say above
them what is taken on trust.

`tests/` runs the library on concrete values. `app/` is the program around it:
threads, locks, the pipe, and the calls into Windows.
