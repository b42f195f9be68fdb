# iris

A container format whose files carry the decoder that reads them, written in Verus: every function under
`src/` states what it returns or changes, and the verifier proves it, but for the methods that a user of
the library implements and for what goes to a formatter or comes from the machine.

## Layout

| Module | What it is |
|---|---|
| `abi` | The records a host and a decoder exchange, capability negotiation, version rules. |
| `btr` | A reader for BtrBlocks column parts: schemes, bit packing, FSST text, Roaring null maps. |
| `decoder` | What a decoder is written against, and the conversation it has with a host. |
| `engine` | What an engine's adapters decide: splitting, projecting, cutting batches into chunks. |
| `format` | The container: header, sections, footer, trailer, digests, and writing all of it. |
| `guard` | Structural validation of Arrow arrays that a decoder hands to a host. |
| `bytes`, `text` | Little endian numbers, and numbers as text. |

`app/` is ordinary Rust around the library: a command line, and adapters for DataFusion, DuckDB and C.
`tests/` runs the library on concrete values.

## How it is specified

Each type has a view, and contracts speak of views. Reading is a function from bytes to a value or an
error, so a reader's contract says which error comes for which bytes. Writing is a function from a value
to bytes. That the two fit together is stated in the `roundtrip` and `laws` modules as public proof
functions: records, containers and packed columns come back as they were written, a reader steps over what
it does not know, a batch that passes the guard keeps every access in bounds, and a scan that is split reads
every row once.

What the verifier takes on trust is marked `external_body`: the BLAKE3 digest, UTF-8 validation, the
address of a buffer, and handing text to a formatter. Each says in its own comment what is believed of it.
