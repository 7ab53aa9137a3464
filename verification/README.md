# clearly-cached

A caching, normalising front end for the
[ClearlyDefined](https://clearlydefined.io) definitions API, whose decisions are
verified with [Verus](https://github.com/verus-lang/verus).

The service retries an unreliable upstream within a deadline, collapses
concurrent requests for one coordinate onto one fetch, holds answers in memory
and on disk for as long as their harvest state allows, and serves the few fields
of a definition that consumers read.

## Layout

`src/` is the library: every rule the service goes by, each with a contract.

| module | decides |
| --- | --- |
| `coordinate` | which coordinates are forwarded, and the key each goes by |
| `definition`, `party`, `vcs` | what is kept of an upstream document |
| `client`, `fault` | what to ask upstream, when to ask again, what an answer means |
| `cache` | what memory holds, and what makes room |
| `persist::record` | how long a stored value lives |
| `persist::writer` | how queued writes are batched |
| `persist::sweep`, `persist::evict` | which rows leave the table |
| `flight` | which request starts a resolve, and which wait on one |
| `resolve`, `reply`, `stats` | what a resolve comes to, what is answered, what is counted |
| `config` | what the environment says |
| `text`, `json`, `time` | the vocabulary of the others, and what is relied on of `serde_json` and the clocks |

Public proof functions whose names start with `law_` state what holds across
functions: that a read gives back the last write, that no queued write is lost,
that a sweep finds exactly what has expired, that requests share one resolve.

`app/` is the program around it: sockets, the clock, the redb file and the
threads. `tests/` runs the library on concrete values.

## Configuration

| Variable | Default | Meaning |
| --- | --- | --- |
| `LISTEN_ADDR` | `0.0.0.0:8080` | Listen address |
| `CLEARLYDEFINED_UPSTREAM` | `https://api.clearlydefined.io` | Upstream base URL |
| `CACHE_PATH` | `/var/cache/clearly-cached/definitions.redb` | Disk tier; set empty for memory only |
| `CACHE_CAPACITY` | `200000` | Entries held in memory before eviction |
| `CACHE_DISK_MAX_ENTRIES` | `2000000` | Disk ceiling; `0` for unbounded |
| `UPSTREAM_ATTEMPTS` | `3` | Total attempts per fetch |
| `UPSTREAM_TIMEOUT_SECS` | `8` | Per-attempt timeout |
| `UPSTREAM_DEADLINE_SECS` | `25` | Ceiling across all attempts |
| `CLIENT_DEADLINE_SECS` | `5` | How long a request waits |
