# Diting

A meeting service. Clients open meetings and upload audio segments, or let a bot
listen in a live room. Each segment is transcribed, each window of a meeting is
summarized once all of it is transcribed, and the summaries make up a board that is
kept version by version. Text that comes late makes the summaries of the windows it
is in, and all after them, be made again.

## Layout

- `src/` is the library: the rules of the service, verified with Verus. Every
  operation is a function on a `Store`, the rows of a meeting in memory. Its contract
  says what the whole store is afterwards, which events are told, and how the
  operation came out.
  - `text`, `number`, `json`, `rows`, `ids`, `error`, `store`, `events`, `settings`:
    what the rest is written in.
  - `summary`, `board`, `provider`: documents, how they are cleaned and merged, and
    how they are asked for.
  - `jobs`, `queue`, `round`, `transcription`, `windows`, `rebuild`: the pipeline.
  - `meetings`, `speakers`, `uploads`, `segments`, `boards`, `overview`: what clients
    ask for.
  - `wav`, `ingest`: live rooms.
  - `soundness`, `separation`: what always holds of the store, and that meetings do
    not disturb one another.
- `tests/` runs the library.
- `app/` is the service around it: the database, the HTTP interface, the worker, the
  providers and the bots. An operation runs in one transaction: the rows of its
  meeting are read into a store, the library changes the store, and the difference is
  written back.

Laws that relate several operations are public proof functions whose names start with
`law_`.

## What is taken on trust

`serde_json` reads and writes JSON text, and `uuid` makes identifiers; both are called
from the library, behind functions whose contracts say what is believed of them.
Identifiers and the time come in as arguments, so that every operation is exact for
whatever they are; the functions without an identifier among their arguments draw one.

## Settings

`DITING_DATABASE_URL`, `DITING_ADDR`, `DITING_MAX_UPLOAD_BYTES`,
`DITING_INGEST_WINDOW_MS`, and for the providers `DITING_ASR_BASE_URL`,
`DITING_ASR_API_KEY`, `DITING_ASR_MODEL`, `DITING_LLM_BASE_URL`, `DITING_LLM_API_KEY`,
`DITING_LLM_MODEL`.
