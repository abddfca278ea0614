# freetoken

A serving engine for mixture-of-experts models whose experts do not fit on the device.
Experts live in host memory; the device holds a cache of expert slots with
least-recently-used replacement. Of the experts that a step misses, a share is fetched
and the host computes the rest.

## Layout

`src/` is the library, verified with Verus:

| module | what it holds |
|---|---|
| `slot_cache`, `slot_cache_laws` | the cache of expert slots |
| `copy_plan`, `copy_plan_laws`, `order` | runs of contiguous experts, and the split of misses |
| `gguf`, `le_bytes`, `text` | the reader of model files |
| `tokenizer`, `tokenizer_laws`, `chat`, `reply` | tokens, prompts and answers |
| `config`, `plan`, `load`, `expert_bank` | hyperparameters, shapes, weights |
| `q4_0`, `q4_0_laws`, `q6k`, `par` | weight formats, in integers |
| `routing`, `dispatch`, `dispatch_laws` | the choice of experts, and where they are computed |
| `batch`, `scheduler` | sequences that are decoded together |
| `launch`, `schedule`, `schedule_laws`, `schedule_flow`, `driver` | the operations of a decode step |
| `profile`, `rng` | measurement and pseudo-random numbers |

`app/` holds the programs around it: the server, the generator, the benchmarks, the
calls of the device, and what is computed in floating point. `tests/` tests the library.

Floating-point numbers pass through the library as bit patterns. Bytes and strings are
taken from the standard library, and chunks of work are handed to threads by `rayon`;
what is taken on trust of these stands in `text` and `par`.
