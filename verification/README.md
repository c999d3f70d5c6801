# chat_responses_codex

The routing and admission core of an OpenAI-compatible gateway that serves
downstream API keys from a pool of upstream accounts. The library is written
in Verus: every function carries a `requires`/`ensures` contract over
mathematical models (`Seq`, `Map`, `Set`, spec functions), and the laws that
tie functions together are public proof functions.

## What it covers

- Upstream configuration: normalization into stored form, protocols, route
  models, per-key model lists, model mappings and their validation, context
  windows and context fallbacks (`normalize`, `validate`, `context_profile`).
- Model identity: canonical ids, global alias rules, the published model
  catalog and per-downstream model access (`model_identity`, `model_catalog`,
  `model_access`, `model_qualification`).
- Admission: downstream request windows (per-minute limit and request quota),
  the daily cost window of token-billed keys, downstream concurrency buckets
  with one-time lease expiry, and all-or-nothing admission with rollback
  (`request_window`, `cost_window`, `downstream_runtime`, `admission`).
- Upstream leases: the local lease table with lazy sweeps of expired and
  stale leases, hold-time percentiles, the local concurrency gate, hedged
  requests with per-minute and quota-window gates, the slot-wait queue and the
  per-upstream runtime figures (`lease_table`, `hedge`, `slot_wait`,
  `upstream_snapshot`, `account_concurrency`).
- Patches and syncs: JSON-style patches of upstreams and downstreams, the
  key-import sync, model-key sync scheduling (`patch`, `upstream_patch`,
  `downstream_patch`, `freekey_sync`, `model_key_sync`).
- Queries over usage logs and response histories (`log_queries`,
  `response_history`, `routing_memory`, `calendar`).

## Layout

- `src/` — the verified library; calls into chrono, chrono-tz, uuid and sha2
  go through small trusted wrappers whose contracts are documented where they
  are declared.
- `tests/` — ordinary Rust tests of the compiled library.
- `app/` — the thin shell around the library: JSON decoding, HTTP model
  discovery, locks and clocks of the shared runtime state.
