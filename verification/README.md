# envoy-files

A static file server for Envoy: the rules of serving files over HTTP, written
and verified in Verus, and the dynamic module around them.

## Layout

- `src/` is the library. It resolves request paths, picks content types and
  precompressed variants, evaluates conditional requests, plans byte ranges and
  responses, renders directory listings, reads the configuration, and decides
  step by step what a request does next. It performs no I/O.
  - `filter` is the request state machine, `stream` the chunks of a body and
    the window of reads, `response_plan` the response to a request for a file.
  - `path`, `mime`, `encoding`, `range`, `validators`, `tags`, `listing`, `error` and
    `message` hold the HTTP and path rules.
  - `config` and `document` read the configuration, `json` reads reports; `io` and
    `eventbridge` hold what the I/O engine and the server tell each other.
  - `bootstrap`, `harness` and `fixtures` serve the integration harness.
  - `text` is what the others need of strings and numbers.
- `tests/` runs the library, among others on whole requests against a document
  root in memory.
- `app/` is ordinary Rust around the library: the I/O engine, the hooks of the
  Envoy SDK, the harness that drives a real Envoy, and a benchmark.

Public proof functions whose names start with `law_` state what holds of the
library as a whole. Calls into outside crates stand behind small functions whose
doc comments say what is taken for granted of them.
