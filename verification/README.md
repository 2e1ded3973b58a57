# remote_window

A screen-streaming server and viewer. The library under `src/` is verified
with Verus; `app/` holds the programs around it (sockets, screen capture,
the window, the environment).

- `compression`: the frame codecs (raw, zstd, lz4) and the codec setting.
- `connection`: the wire protocol: frame headers, frame requests, stream
  chunks, datagram packets and their reassembly.
- `connection_handler`: pixels to little-endian frame bytes and back.
- `screen`: the viewer's screen buffer and its drawing primitives.
- `capture`: captured-frame conversion, display lists, capture error
  classification.
- `config`: the settings read from the environment, with their defaults.
- `performance_track`: the rolling histories of the viewer's rate chart.
- `bytes`: byte orders and word encodings, including the machine's own order.
- `text`, `color`: helpers the modules above share.
