# ntl

Neural Transfer Layer: signals that propagate over synapses, and synapses that
learn which paths deliver.

`src/` is the library. Every item of it is verified with
[Verus](https://github.com/verus-lang/verus): what a function promises stands in
its `ensures`, and the laws of the protocol stand beside the functions as public
proof functions (`lemma_..`).

| Modules | What they hold |
| --- | --- |
| `signal`, `delivery`, `propagation`, `frame` | signals, receipts, routing and framing |
| `activation`, `synapse`, `learning`, `budget`, `decay` | the activation gate, synapses, how weights move, and what bounds them |
| `node`, `session`, `relay` | what a node decides, with whom it talks, and what follows |
| `store`, `memory`, `sqlite`, `postgres` | what a node keeps, in memory and in columns |
| `crypto`, `identity`, `rng`, `csprng`, `time` | keys, identities, randomness and clocks |
| `scalar`, `arith`, `curves` | single-precision numbers in integers, and the curves of the host |
| `config`, `cli`, `adapter`, `testing`, `error` | configuration, the command line, adapters, fixtures |
| `keyed`, `order`, `text` | lists as maps, stable sorting, texts and bytes |

Weights are single-precision numbers, computed bit by bit as the hardware does.
What only the host can do is asked of it through traits that promise nothing:
`Curves` for exponentials, logarithms and conversions of hours, `Encoder` for
the bytes that a signal is written in. Contracts say what was asked and what
follows from each answer; laws that need more of the host say so in `requires`.

## What is trusted

These functions call outside code. Verus takes their contracts as they stand,
and everything else is proved from them.

| Module | Functions | What they call |
| --- | --- | --- |
| `time` | `nanos_since_epoch` | the host's clock |
| `identity` | `os_seed` | `rand`'s generator of the operating system |
| `csprng` | `chacha12` | `rand_chacha`'s stream |
| `crypto` | `blake3_digest` | `blake3` |
| `crypto` | `ed25519_public_key`, `ed25519_sign`, `ed25519_is_key`, `ed25519_verify` | `ed25519_dalek` |
| `signal` | `ulid_from_parts`, `ulid_timestamp_ms`, `ulid_to_bytes`, `ulid_from_bytes`, `ulid_to_string` | `ulid` |
| `session` | `json_bytes`, `json_object` | `serde_json` |
| `sqlite` | `parse_counts`, `render_counts`, `parse_texts`, `render_texts` | `serde_json` |
| `cli` | `json_value` | `serde_json` |
| `cli` | `lowercase`, `trimmed` | `str` |

The trait `NodeStore` is implemented in `src/` by the store in memory, and
proved. The databases of `app/` implement it too, and are trusted to do as its
contracts say.

`tests/` runs the library. `app/` is the command line around it: sockets, files,
the database, and the formats that signals and settings travel in.
