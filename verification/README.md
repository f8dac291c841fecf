# openjev

Benchmarks three ways of answering a multiple-choice prompt with a small language model:

1. **Constrained readout**: one forward pass; the softmax is restricted to the option
   labels' tokens.
2. **JSON generation**: greedy decoding of `{"answer": "<option>"}`, with `<think>`
   reasoning removed and the answer validated against the options.
3. **Laya**: a choice question scored by the Laya decision model (`laya serve` over HTTP,
   or natively on ggml).

It runs as a one-shot command (`openjev cli ...`) or as an HTTP server (`openjev serve`,
`POST /bench`, `GET /health`) backed by a pool of engine workers.

## Layout

- `src/` is the verified library (Verus). Every function states its behaviour in
  `requires`/`ensures`, and the properties that span functions are proof functions named
  `law_*`.
  - `text`: character-sequence helpers (trimming, searching, joining, decimal text).
  - `generate`: `<think>` stripping, JSON answer validation, the prompts, and the step
    decision of greedy generation (including the forced close of an over-budget
    reasoning block).
  - `tokenizer`: GPT-2 style pre-tokenizer and byte-level BPE.
  - `sequence`: question rendering and the encoder input sequence with its option markers.
  - `laya`: sequence padding, the graph cache's eviction order, temperature lookup and the
    option checks of native Laya scoring.
  - `models`, `engine`, `pipeline`, `server`, `timing`: the model registry, errors and their
    messages, request checking, the plan of a benchmark run, worker routing and perf spans.
- `tests/`: executable tests of the library.
- `app/`: the program around it: command line, HTTP server and worker pool, llama.cpp
  engine, model download, `laya serve` client, perf-log writer, native ggml graph, and the
  floating-point parts (softmax, argmax, confidence).
