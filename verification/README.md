# arabizi

Franco-Arabic (Arabizi: Arabic written with Latin letters and digits, such as
`ahlan`, `3arabi`, `7abibi`) to Arabic script, as a Verus-verified library,
with the desktop overlay and the terminal front end around it.

## Layout

- `src/` — the verified library.
  - `text`, `assoc`: character-level helpers and association lists with
    distinct keys, each with a mathematical model.
  - `mappings`, `dictionary`: the character tables and the word dictionary.
  - `single`: the single-candidate engine (dictionary, then one rule-based
    transliteration).
  - `engine`: the ranked engine (dictionary, vowel variations, tanween
    endings, consonant swaps; ranked by user choices, dictionary and word
    frequency; at most eight).
  - `ranking`: what ranking guarantees, stated and proved as lemmas.
  - `phrase`: candidates for inputs of several words.
  - `user_prefs`: the user's choices, with their JSON persistence.
  - `frequency`, `tashkeela`: the frequency and vocalized word lists.
  - `desktop`: the overlay's decisions — per-word candidates with Arabic
    punctuation, shortcut strings, accent colours, saved window positions,
    start-at-login files, backdrops.
- `tests/` — tests of the library.
- `app/` — the Tauri desktop program and the terminal front end
  (`--console`); they do the I/O and call the library.
