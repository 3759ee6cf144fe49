# peek

A TCP port scanner (connect scan and SYN scan) whose decision logic is
verified with Verus.

- `src/` — the verified library:
  - `cli` — the `START-END` port range syntax;
  - `dns` — which resolved address is scanned;
  - `formatter` — what the reports count and list;
  - `scanner` — the single-port connect scanner; `scanner::connect` — the
    range connect scanner with timeouts; `scanner::syn` — the SYN scanner,
    its targets, and the probe packets (built and read with `pnet_packet`).
- `app/` — the program: argument parsing, name resolution, sockets,
  `poll`/`epoll`, the clock, and printing.
- `tests/` — tests of the library.
