# kawa

kawa is an FFmpeg-based internet radio streamer: it plays songs from a
queue managed over an HTTP API, transcodes each song once per configured
stream, and sends every stream to its listeners with HTTP chunked transfer
encoding.

## Layout

- `src/` is the verified library (Verus):
  - `broadcast.rs`: the chunked framing of a stream, listener requests,
    per-listener buffering and flushing, the back buffer kept for late
    joiners, and the broadcaster's bookkeeping of listeners and mounts.
  - `queue.rs`, `radio.rs`: the play queue, the choice of the next song to
    transcode, and how API messages change the queue.
  - `api.rs`, `json.rs`: routing and answering API requests.
  - `config.rs`: checking the configuration file's streams.
  - `ring_buffer.rs`, `tc_queue.rs`, `prebuffer.rs`: buffers between the
    transcoder and the player.
  - `kaeru.rs`, `transcode.rs`, `util.rs`, `text.rs`: encoder settings,
    in-memory I/O callbacks, Icecast tags and text helpers.
- `tests/`: tests of the library.
- `app/`: the program around it: sockets, the HTTP server, the radio and
  transcoding threads, the configuration file, FFmpeg, and the blocking
  reader and writer over the ring (they sleep between the library's steps).
