# smartbuf

A buffered reader with background pre-fetching and full seek support, verified with Verus.

- `src/` is the library. A `SmartBuf` hands out the bytes of a source and seeks in it; a
  `BackgroundReader` fills buffers ahead of it. The two are joined by channels of
  `crossbeam-channel`, and each can run in a thread of its own. Neither touches the source: the
  background reader says what is to be read or sought, and is told what came of it.
  - `buffer`: the buffers that go round between the two.
  - `message`: what the two say to each other, and the errors.
  - `channel`: the channels, whose ends keep a log of what was handed over and looked for.
  - `reader`: `SmartBuf`.
  - `background`: `BackgroundReader`.
  - `refills`: what refills of buffers give, read after read.
  - `laws`: what holds of the two together, over a source with fixed contents.
- `app/` wraps the pair for any `Read + Seek`: it asks the source where it stands, starts the
  thread, does the reads and seeks that the background reader asks for, and has the traits of
  `std::io`.
- `tests/` runs the library: `parts` one call at a time, `reader` in two threads.
