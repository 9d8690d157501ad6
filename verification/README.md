# ailater-im

A pinyin input method engine for fcitx5 with optional AI phrase
prediction. The engine is a Verus library: its behaviour is stated in
`requires` / `ensures` contracts over mathematical models and proved.

## Layout

- `src/` — the verified library
  - `ffi.rs` — key symbols, modifier bits and handler results
  - `text.rs` — strings as characters, decimal numbers, field and line splitting
  - `pinyin.rs` — the built-in syllable table, syllable segmentation, initial
    letters and fuzzy variants
  - `config.rs` — settings and their defaults (fractions in thousandths)
  - `dictionary.rs` — system and user tables, lookup, learning, and the
    dictionary text format
  - `model.rs` — the backend interface, the prompt, reading replies, the
    prediction cache and the choice of backend
  - `candidates.rs` — candidates, input state and every candidate source
  - `engine.rs` — key classification, the effect of each key on an input
    context, and the engine itself
- `tests/` — tests of the library on concrete values
- `app/` — the plugin around the library: configuration and dictionary
  files, the HTTP backend and the C interface that fcitx5 calls

## Main properties proved

- segmenting a pinyin string gives syllables whose concatenation is the input
- a lookup is ordered by frequency and holds exactly the merged entries
- a learned word is found again; at equal frequency lookup keeps user
  entries before system-only entries
- every user table the library reads or learns into is storable (no tab or
  newline in words and keys), and a storable table reads back after saving,
  with a missing timestamp read back as 0
- every key keeps the state of its input context consistent (selection
  inside the candidate list, input active exactly while there is a preedit)
- candidate lists are ordered by score and cut to the configured length
  (no cut candidate scores above a kept one), and are empty for an empty
  preedit
- backspace undoes a letter; the backend is asked exactly when its answer
  is used, with the committed context and the new preedit
- reply confidences stay within 0..=1 and do not grow down a reply
- a cached reply is found again, and the cache stays within its capacity

Scores are held in ten-thousandths and confidences in thousandths, so the
library has no floating point.
