# ratelimitly

The verified core of a client for [Ratelimitly](https://ratelimitly.com/), a
distributed admission-control service. An application asks whether work may
consume rate-limited resources, possibly on the condition that measured service
latencies stay below thresholds, and it reports such latencies.

Everything in `src/` is executable Rust whose behaviour is stated in contracts
and proved by [Verus](https://github.com/verus-lang/verus). It neither sends nor
receives: it reads API keys, checks configuration, derives identifiers, writes
and reads packets, and decides what to do next. `app/` is the asynchronous
client around it: sockets, DNS, timers and locks. It carries out what the
library decides. One thing it settles itself: once a decision on a request is
in hand, a source port that cannot be changed is traced and does not take the
decision back.

## Layout

| Module | What it holds |
| --- | --- |
| `api_key`, `api_key_codec`, `bit_groups` | API keys: Bech32 text, payload, limits |
| `model` | resources, latency trackers, decisions and their details |
| `request_policy`, `duration` | the timing policy of requests and its horizon |
| `public_client`, `client`, `config` | builders, validation, admission |
| `protocol`, `request_wire`, `response_wire`, `wire` | identifiers, blocks, packets |
| `selection`, `request_run`, `delivery` | rounds, choice of the response, sends |
| `discovery`, `routing`, `steering` | membership, response routing, source ports |
| `crypto`, `buffer` | calls into cryptography, randomness and byte buffers |
| `error`, `text`, `formatting` | errors, texts, diagnostic output |

## What is proved

Each public function states when it succeeds and what it returns. Beyond that,
functions named `lemma_*` state properties of the whole, among them:

- encoding and decoding of API keys undo each other;
- definitions of counters and trackers that differ are hashed from different
  bytes;
- a packet is read back as the request that it was written from, and carries
  the identifier that its responses are routed by;
- a response is a grant exactly if every guard stayed below its threshold and
  every quantity was supplied, it names the server that gave it, and only
  authentic responses of members count;
- in the initial round the oldest server wins, later the first response does,
  nothing changes an answer once given, and no request outlasts its horizon;
- source ports stay in the dynamic range, differ from the current one, and do
  not repeat before the whole range was tried.

## What is trusted

Verus takes the contracts of these calls as given; each is documented where it
stands:

- `crypto`: BLAKE2s-256, AES-256-GCM, random nonces and identifiers;
- `buffer`: the growable buffer of the `bytes` crate;
- `duration`: the nanoseconds of a `std::time::Duration`;
- `text`: `String::from_utf8`;
- `formatting`: writing to a `std::fmt::Formatter`;
- `error`: `std::io::Error`, carried through as it is.
