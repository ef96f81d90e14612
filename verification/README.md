# vi — the text side of the EVI voice input method

EVI turns held-key dictation into text: speech is recognized, the text is
refined (filler words, punctuation, optional polishing by a local or remote
language model) and typed into the focused application; later edits of that
text are recorded as corrections with their audio times.

This crate is the verified core of that pipeline, written in Verus. The
functions in `src/` carry contracts that Verus proves, with one kind of
exception: the few small wrappers marked `#[verifier::external_body]` that call
std, `serde_json` or `unicode-segmentation` (path joining, UTF-8 decoding,
collecting characters into a string, lowercasing, grapheme splitting, JSON
field lookup, reading one level of a JSON value). Their contracts are
trusted, not proved; each one's doc comment says what it claims of the call.

## Layout

- `src/chars.rs`, `src/bytes_map.rs`, `src/json.rs` — text, byte-keyed map and
  JSON helpers shared by the rest.
- `src/engine/` — refinement engines: the Coze workflow stream parser, the
  OpenAI-style remote service, the local model's prompt handling, the
  byte-level BPE tokenizer (`bpe.rs`, with its encode/decode round trip in
  `bpe_roundtrip.rs`, read from the text of `tokenizer.json` by
  `tokenizer_json.rs`) and the correction differ.
- `src/refine_mgr.rs` — which engine a text goes to, and trailing punctuation.
- `src/session.rs` — what the dictation loop decides between recordings.
- `src/text.rs` — text sessions (injection plus observation).
- `src/secret.rs` — the obfuscated API key file and the workflow id.
- `src/models.rs`, `src/download.rs` — where the models live and how they are
  downloaded.
- `src/timefmt.rs` — calendar dates and clock times.
- `src/ui/` — the logic of the settings window, the tray menu, the log view
  and the refinement editor.
- `app/` — the program around the library: configuration files, key files,
  HTTP requests, SQLite, logging, model download, and a line-based driver.
- `tests/` — tests run against the compiled library.

Laws proved in `src/` include: decoding the tokenizer's output gives the text
back (`engine::bpe_roundtrip::lemma_encode_decode_roundtrip`), the saved API
key is read back unchanged (`secret::lemma_key_roundtrip`), a correction
describes exactly the edited span (`engine::correction::diff_corrections`),
encoding is the concatenation of the encodings of the pre-tokenized pieces
(`engine::bpe::lemma_encode_pieces`), and appending an event that carries no
text keeps what a Coze stream yields
(`engine::coze_refine::lemma_sse_append_other_event`), a day number's date
lies exactly that many days after 1970-01-01
(`timefmt::lemma_civil_date_count`), and a saved key is loaded back
(`secret::lemma_save_load_key`). Whether a vocabulary
meets the condition of the round trip is checked by
`engine::bpe::BpeTokenizer::from_parts_checked`.
