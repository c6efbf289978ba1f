# llm-relay

A slim, OpenAI-compatible chat-completions relay with verified wire logic.
It forwards `POST /v1/chat/completions` to a single upstream endpoint, retries once on
retryable failures, and returns responses verbatim: request bodies go upstream byte for
byte, and response bodies and SSE frames come back byte for byte.

| Method | Path | Purpose |
|--------|------|---------|
| `POST` | `/v1/chat/completions` (alias `/chat/completions`) | Relay a chat completion |
| `GET`  | `/egress`  | The source address upstream sees us from (both IP families) |
| `GET`  | `/healthz` | Liveness |
| `GET`  | `/`        | Service index |

A known path with the wrong method answers `405` and `Allow`; an unknown path `404`.

The process reads two environment variables: `PORT` (default `8787`) and `RELAY_API_KEY`
(default `public`, a placeholder that only ever answers `401`).

## Layout

- `src/` is the library, verified with Verus.
  - `text`, `convert`, `object`: text, and JSON read and written without a parser
  - `error`, `reply`, `route`: the answers that the relay composes itself
  - `identity`, `config`, `request`: what goes upstream, and what the relay runs with
  - `sse`, `stream`: the event stream, frame by frame and as a whole
  - `relay`, `egress`, `server`: the decisions behind a completion, a report, the process
  - `buffer`, `header`: what the library relies on of `bytes`, `memchr` and `hyper`
- `app/` is the process around it: sockets, the HTTP client, the runtime.
- `tests/` runs the library on concrete values.

Functions named `law_*` are proofs that need no reading of the code: each states, in its
doc comment and its `ensures`, what holds of the relay as a whole.
