# bt

A BitTorrent client library with its logic proved in Verus, and `btget`, a
small downloader around it.

- `src/` is the library. Every function in it is verified: bencoding (strict
  and lenient), torrent files and magnet links, the peer wire protocol and its
  extension messages, piece bookkeeping and selection, request pipelines,
  choking, HTTP and UDP tracker messages, the DHT's messages and routing
  table, the layout of files on disk, the resume state, metadata fetching,
  and the download engine as a state machine that is handed events and
  answers with actions. The few calls into std and the `sha1` crate that
  Verus cannot read sit behind small trusted wrappers whose contracts say
  what they promise.
- `app/` is the program: command line, sockets, threads, files and the
  terminal. It performs the actions the engine asks for and feeds it what
  happens.
- `tests/` runs the library on concrete inputs.
