# smb_server

The core of an SMB2 server, written in Rust and proved with Verus: path
validation, the packet header, compound frames, signatures and responses, the
SMB1 bootstrap, and what CREATE, QUERY_INFO and QUERY_DIRECTORY decide and
answer.

The library in `src/` does no I/O. It takes plain values in and gives plain
values back; every function states in its contract what it returns.

| Module | What it holds |
| --- | --- |
| `bytes` | little-endian integers, padding, splicing |
| `text`, `utf16` | characters, UTF-16 in both directions |
| `utils` | FILETIME, UTF-16LE, DOS wildcards, random bytes |
| `path` | `SmbPath`, a path that backends can trust |
| `trace` | trace keys, events and the sink |
| `header` | the SMB2 packet header |
| `compound` | walking a compound request, stitching a reply |
| `dispatch` | signatures, responses, preauth bookkeeping |
| `smb1` | the multi-protocol NEGOTIATE |
| `messages`, `handlers` | what the command handlers read, decide and write |

The public `lemma_*` functions state what holds across functions: that paths
survive being rendered and read, that a stitched reply can be walked, that trace
keys do not collide, that a listing returns every entry once.

`app/` is the asynchronous shell: locks, logging, task-local trace scopes, and
the traits behind which backends, message codecs and cryptography stand.
`tests/` runs the library on concrete values.
