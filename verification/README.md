# tcp_http_server

A small HTTP/1.1 server whose request parsing and response building are
verified with Verus.

- `src/` — the verified library: request line, header block and
  `Content-Length` body parsing (`request`, `headers`, `http_version`),
  decimal numbers (`numbers`), text helpers (`text`), bodies, status codes
  and responses.
- `app/` — the program: the TCP listener, one thread per connection, and
  the loop that reads bytes from a connection into `RequestParser`.
- `tests/` — tests of the library.

`GET /` is answered with `200 OK`; anything else with `404 Not Found`.
