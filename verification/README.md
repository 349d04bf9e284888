# netlabs

Verified core of a set of networking exercises, written in Verus.

`src/` is the library. Its own functions carry contracts that Verus proves. The calls into
other crates (httparse, regex, chrono, base64, lettre) and a few std string conversions go
through small `#[verifier::external_body]` wrappers whose contracts are trusted, not
proved; each one's doc comment says what it claims of the call. The modules:

- `checksum`, `ping` — the 16-bit one's-complement checksum, ICMP echo requests, and the
  reading of ICMP replies.
- `stop_and_wait`, `file_transfer` — the alternating-bit protocol of the lossy UDP socket
  and the files sent over it.
- `http`, `remote`, `blacklist` — HTTP/1.1 messages (heads parsed by httparse), the
  proxy's blacklist (regex), and the remote-command server's texts.
- `ftp_server`, `ftp_client` — the FTP server's command handling and the client's reply
  parsing.
- `smtp` — reading an email from the user's answers, the SMTP dialogue, the MIME message,
  and the message built with lettre.
- `table`, `heartbeat`, `peers` — tables of peers with expiry, the heartbeat monitor and
  LAN peer discovery.
- `file_server` — the small HTTP file server.
- `text`, `addr` — shared byte, character and address helpers.

`app/` is the command-line program around it (sockets, files, processes, terminals);
`tests/` runs the library on concrete values.
