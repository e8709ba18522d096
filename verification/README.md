# moq_media

Recording and audio for Media over QUIC, as a verified library.

`archive` names, frames and replays recordings: object keys, the segment envelope, the timeline index,
the writer that records enrolled tracks, the reader that serves them, recovery after a restart, and
seeking a live track back into its recording.

`audio` holds what a publisher and a player of audio decide: layouts and sample formats, the AAC and
Opus headers, codec settings, the encoder's frames and drain, the decoder's timeline across gaps,
capture with its buffers, retries and controls, and echo cancellation's buffering.

`src/` is verified with Verus. It performs no I/O: what alternates with a device, a network or a store
is a state machine there, and `app/` drives it. Calls into other crates stand behind small functions
whose contracts are trusted; each says what it claims.

`app/` is ordinary Rust around the library: object stores, codecs, devices and the async loops.
