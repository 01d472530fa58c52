# vivian_memory

The long-term memory of a companion character: what is remembered, how it is found
again, how it fades, and how short memories become lasting ones. The library is
written in Verus: the contracts of its functions say what they return or change, and
the contracts are proved.

## Layout

- `src/` is the verified library.
  - `types`, `store`, `manager`, `recording`, `notes`, `seed`, `recycle_bin`: the memories of
    a character and what is done to them.
  - `strategy`, `retriever`, `search`, `search_laws`, `bm25`, `relational_recall`, `precision_filter`,
    `relaxation`, `refiner`, `reranker`: finding memories again.
  - `retention`, `time_anchor`, `time_stamped`, `session_compressor`: fading, dates, and the
    running conversation.
  - `consolidation`, `pipeline`, `stages`, `prompts`, `topic_merger`, `step_health`: how
    memories are summed up, and what happens when a step fails.
  - `memory_md`, `note_laws`: the long-term note, a markdown file.
  - `memory_router`, `writing`, `conflict`, `redact`, `takes_fence`: where a memory goes, what
    it contradicts, and what must not be kept.
  - `ollama_service`, `qdrant`, `reindex`: the decisions around the outside services.
  - `text`, `tokens`, `tokenize`, `pattern`, `json`, `assoc`, `ordered`, `rank`, `select`:
    what the rest is built from.
- `app/` does the input and output: files, network services, models, and scores in floating
  point.
- `tests/` runs the library on concrete values.

## Numbers

Scores and importance are whole numbers of millionths, fused scores of millionths of
millionths, and times are milliseconds.

## Laws

Public proof functions state what holds across functions, for example
`note_laws::tidied_note_has_nothing_waiting`, `note_laws::merging_twice_changes_nothing`,
`note_laws::written_note_is_read_back`, `manager::deleted_then_restored`,
`retention::protected_never_expires` and `stages::kept_summary_stands_for_its_sources`.

## What is trusted

Calls into `regex`, `serde_json`, `jieba-rs`, `tiktoken-rs`, `chrono`, `uuid`, `rand` and a few
functions of `std` stand behind small wrappers; the comment above each says what is
claimed of it.
