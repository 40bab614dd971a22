# Cachet

A transparent, fully local semantic cache for LLM APIs, with a verified core.

Point a client's base URL at the proxy and requests pass through unchanged. A
chat completion that was answered before, or that is close enough to one that
was, is served from local memory.

## Layout

- `src/` is the library, written in Verus. Every decision of the proxy is here,
  with a contract that says what it is:
  - `chat` reads requests and answers, `json` is the data they are made of;
  - `cache` is the two-layer store, `embedder` cuts prompts into hashed features,
    `score` compares similarities;
  - `headers` says which headers travel, `stream` splits and captures event
    streams, `proxy` puts the steps of a request together;
  - `pricing` and `metrics` count what was saved, `dashboard`, `config` and `error`
    are what their names say;
  - `text` and `buffer` hold what the rest is built on.
- `tests/` runs the library on concrete values.
- `app/` is the program: sockets, locks, the clock, the environment, and the
  floating-point arithmetic of similarities and prices.

## What is proved

The contracts state results exactly. The functions named `law_*` state what holds
across calls: what was stored is found until it expires or newer entries fill the
cache; an expired answer, or one of the other format, is never served; a stream
that failed, was dropped or grew too large is never stored; a replayed stream is the
captured one byte for byte; cookies are never stored; every reply carries exactly
one `X-Cachet` header; credentials and queries bear on the upstream request alone;
the estimate of an answer's length never exceeds its body.

What comes from outside is declared in `text`, `buffer` and `json`: Unicode tables
and UTF-8 from the standard library, shared buffers from `bytes`, and JSON text from
`serde_json`.

## Configuration

| Variable             | Default                  | Meaning                                   |
|----------------------|--------------------------|-------------------------------------------|
| `CACHET_UPSTREAM`    | `https://api.openai.com` | Upstream base URL                         |
| `CACHET_HOST`        | `127.0.0.1`              | Interface to bind                         |
| `CACHET_PORT`        | `8080`                   | Port to listen on                         |
| `CACHET_THRESHOLD`   | `0.82`                   | Least similarity of a semantic hit        |
| `CACHET_TTL_SECS`    | `3600`                   | Lifetime of an entry, in seconds          |
| `CACHET_MAX_ENTRIES` | `10000`                  | Most entries; the oldest goes first       |
| `CACHET_PRICING`     | built-in table           | Prices per million tokens, `model=in/out` |

A model that no prefix of the built-in table matches gets the fallback price, 1.00
in and 3.00 out; `CACHET_PRICING` adds to the table.
