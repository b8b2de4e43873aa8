# headroom

Compression of the context that is sent to a language model. The library is
written in Verus: every function states what it returns, and the statements are
proved.

- `src/transforms/pipeline` runs lossless and then lossy transforms over a
  content, and keeps a result only if it saves enough. `orchestrator.rs` holds
  the pipeline and its builder, `registry.rs` the transforms by content type,
  `traits.rs` what a transform is, `json_minifier.rs` and
  `line_importance_filter.rs` two transforms, `laws.rs` what holds of every run,
  and `calls.rs` which transforms a run calls and what it reports of them.
- `src/ccr.rs` stores content that was taken out of a prompt, with a bounded
  number of entries of bounded age.
- `src/scoring` gathers what the importance of messages is computed from:
  `messages.rs` reads messages, `references.rs` finds which messages refer to
  which, `scorer.rs` consults the providers of `traits.rs`.
- `src/handlers/responses.rs` reads what a request to `/v1/responses` asks for.
- `src/compression_policy.rs` says what compression may do for each way of
  paying.
- `src/float.rs`, `src/text.rs` and `src/json.rs` hold the numbers, texts and
  documents that the rest speaks of. Thresholds are binary floating-point
  numbers, held as bit patterns and compared exactly with integers.

`app` holds what computes with floating-point numbers, shares state between
threads, carries derives of other crates, writes traces, or talks to the
network.

The laws of the library are the public proof functions whose names begin with
`law_`. What is not proved stands in functions marked `external_body` and in
`assume_specification` items, each with a comment that says what is claimed of
the function that it stands for.
