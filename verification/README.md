# hysteria2

The outbound side of the Hysteria2 proxy protocol, verified with Verus.

- `src/` is the protocol logic: variable-length integers, the frames that open
  TCP streams and carry packets, the authentication exchange, Salamander
  obfuscation, bandwidth hints, trusted certificates, the adapter's
  configuration and the reports of failures.  Every function states what it returns, and Verus proves it.
- `app/` puts sockets, QUIC streams and logging around that logic.
- `tests/` runs the library, with the outside crates that it calls.

Bandwidth hints are decimal numbers times a unit in double precision.  The
library computes these products in integers, with the rounding of double
precision spelled out in `src/double.rs`; the tests hold them against the
machine's own.

What the proofs rest on besides Verus: the digest of `sha2`, the certificate
parsing of `rustls` and `rustls-pemfile`, the root list of `webpki-roots`, and
four functions of the standard library.  Each stands behind a declaration whose
comment says what is taken for granted of it.
