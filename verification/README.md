# c0mpute

The verified core of a c0mpute node, written in Verus, and the node code
around it.

- `src/` — the library, every function proved against its contract:
  - `hex`, `hash`, `text`: BLAKE3 content hashes, their hex form, message text.
  - `codec`: the Reed-Solomon codec of `reed-solomon-erasure`, as seen by the
    erasure layer (the trusted part of storage).
  - `erasure`: Reed-Solomon 10/14 encoding and decoding of byte strings; any
    10 of the 14 shards give the bytes back.
  - `storage`: object manifests, encoding an object for the chunk store and
    decoding it from the shards read back, with an end-to-end hash check.
  - `bootstrap`: turning the published bootstrap list into addresses and
    merging it with the hardcoded list.
  - `swarm`: which caller of a chunk fetch is answered with what, for each
    DHT and request/response event.
  - `topics`: gossipsub topic names.
  - `identity`: what the stored key file (or its absence) leads to: load,
    refuse, or generate a fresh ed25519 key to write.
  - `supervisor`: the auto-upgrade polling interval, never under a minute.
- `app/` — file and network I/O, the libp2p swarm loop, the key file, the
  bootstrap download, and the `coinpay` / `infernet` command-line stubs.

Not included: the transcode job runner (`AcceptedJob`, `TranscodeJobInline`,
`spawn_transcode_runner`) and the node supervisor's task loop (`Supervisor`;
its update-interval floor is in `supervisor`). They drive
the ffmpeg workload, the HTTP gateway, self-update and the gossipsub job
auction, which live in crates this project does not contain; the node's
shared protocol types are likewise absent, so `Hash` (with its hex form) and
`ChunkRequest` are defined here.
- `tests/` — tests of the library on concrete values.
