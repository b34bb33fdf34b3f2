# mellow_client

The verified core of the Mellow chat client for desktop and Android: it
turns what the user types into a server URL, keeps the list of saved
servers, decides what the app window does on each navigation, reads LAN
discovery replies, and does all the header, redirect and cookie rewriting
of the per-server local reverse proxy that gives WebKit a secure
`http://127.0.0.1:<port>` origin for a self-signed `https://` server.

- `src/` — the library, written in Verus; every function carries a
  contract over `Seq`/`Map` models and is proved.
- `tests/` — tests of the library on concrete values.
- `app/` — the Tauri shell and the hyper/tokio/rustls proxy plumbing that
  call into the library; plain Rust.
