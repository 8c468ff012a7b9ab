# penoxy

A TCP proxy over QUIC. A server and its clients keep QUIC connections; either
side can offer services, TCP ports whose connections travel through a QUIC
stream to an address that the other side can reach.

- `src/` is the logic, verified with [Verus](https://github.com/verus-lang/verus).
  - `wire`: the byte format of numbers, chunks and strings, and that reading
    undoes writing.
  - `stream`, `arrival`: reading values from a stream whose bytes arrive in
    pieces, and that the pieces do not matter.
  - `relay`, `delivery`: relaying between TCP and a stream, and that the bytes
    that go in at one end come out at the other.
  - `config`, `yaml`: configuration files.
  - `service`, `rotation`: services, and how connections are spread over their
    providers.
  - `session`: how a client and a server greet each other, and what they do for
    the streams that the other one opens.
  - `tls`: which certificate a client trusts.
- `app/` is the program around it: sockets, QUIC, logging and the event loops.
- `tests/` runs the library.

The program is run directly under the name `server` or `client`; under another
name its argument says which of the two it is. The server reads `penoxy.yml` and
the client reads `penoxy_client.yml`, both in the working directory.
