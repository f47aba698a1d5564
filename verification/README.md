# mk_core

A Macedonian spelling and grammar checker, written in Verus: the library's
own functions carry contracts that Verus proves. What it takes from the `fst`
crate and from std's Unicode and UTF-8 functions stands behind trusted
wrappers in `fst_store.rs`, `text.rs` and one in `morphology.rs`, whose
contracts Verus believes without proof.

The checker takes compiled tables as bytes (a word lexicon stored as an FST,
and optionally a morphology table, word frequencies and word-pair counts) and
returns diagnostics for a text: unknown words with ranked suggestions, Latin
look-alikes hidden in Cyrillic words, foreign Cyrillic letters, Macedonian
typed in Latin letters, and four grammar rules over morphological readings.

## Layout

- `src/` — the verified library.
  - `lib.rs` — the `Checker` and what it reports for a text.
  - `tokenizer.rs`, `alphabet.rs`, `homoglyph.rs`, `translit.rs` — words,
    scripts, look-alike repair, Latin-to-Cyrillic readings.
  - `levenshtein.rs`, `levenshtein_laws.rs`, `cost.rs`, `lexicon.rs`,
    `order.rs` — the edit-distance automaton run over the lexicon, the
    confusion-weighted cost, and suggestion ranking.
  - `morphology.rs`, `morph_build.rs`, `morph_laws.rs`, `intern.rs`,
    `codec.rs` — the morphology blob: writing it, reading it, and the proof
    that reading gives back what was written.
  - `frequency.rs`, `bigram.rs` — the optional count tables.
  - `grammar.rs`, `diagnostic.rs` — grammar rules and the report format.
  - `sources.rs` — the word lists and tab-separated listings the tables are
    compiled from.
  - `fst_store.rs`, `text.rs` — the trusted boundary: the `fst` crate and the
    few std string functions used, each with the contract it is trusted for.
- `tests/` — tests run against the compiled library.
- `app/` — the command-line driver (`build-lexicon`, `build-morph`,
  `analyze`, `check`) and the WASM bridge, with serde copies of the
  diagnostic types for JSON output.
