# anttp

The decision logic of AntTP, an HTTP gateway onto the Autonomi network,
written in Verus and verified against its contracts.

- `src/xor.rs`: XOR addresses in text form, their parsing, ETag comparison
  (`XorHelper`), and what a request's first path parts address.
- `src/paths.rs`: splitting a request's host and path into parts.
- `src/routes.rs`: route maps of web applications (`AppConfig`), matched with
  `globset` and read from JSON with `serde_json`.
- `src/archive.rs`: the files of a public archive, their HTML and JSON
  listings, and the action taken on a request into an archive (`ArchiveHelper`).
- `src/config.rs`: server configuration from command-line arguments.
- `src/text.rs`: character-level string helpers.
- `app/`: the server itself: argument parsing, HTTP handlers and network
  access, calling the library for every decision.
