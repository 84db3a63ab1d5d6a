# mini_rag

A small retrieval-augmented generation pipeline: documents are extracted to
text, split into overlapping chunks, embedded and stored in a local libSQL
database with a vector index; a question is embedded, the closest chunks are
retrieved, and a chat model answers from them.

## Layout

- `src/` — the pipeline's logic, written in Verus and verified:
  - `chunk.rs`: character-based chunking with clamped overlap, and its laws
    (chunks are trimmed runs of the text, consecutive windows slide by
    `chunk_size - overlap`, no visible character is lost);
  - `rag.rs`: removal of `<think>` reasoning blocks, source excerpts, the
    prompt and its numbered context, and the terminal rendering of an answer;
  - `db.rs`: the vector-search query text and the ranking of its rows;
  - `sync.rs`: which files a list of paths names, whether a file is skipped,
    replaced or inserted, its title, and its chunks;
  - `text.rs`: whitespace, trimming, search, UTF-8 lengths, decimal numbers;
  - `style.rs`: terminal colours (owo-colors).
- `app/` — the program around it: file system, database, Ollama calls,
  the `sync` and `chat` commands.
- `tests/` — tests of the library.
