# asr-core

The verified core of an on-device meeting transcription pipeline.

`src/` is a Verus library. Every function that returns a value or changes
an argument carries a `requires`/`ensures` contract over mathematical
models (`Seq`, `int`, views of the data types); the two `stop` methods,
which only send stop signals, have none:

- `text`, `cleanup`, `eval`, `wordtime`: normalisation, filler and
  hallucination filtering, word/character edit counts, alignment words.
- `timestamps`: repair of non-monotonic word timestamps around their
  longest non-decreasing run.
- `streaming`, `window`, `policy`: commit decisions of the streaming
  recognisers (prefix agreement, fixed-window de-duplication,
  LocalAgreement-2, endpointing, inference cadence, decoder prompts).
- `backend`, `decode`, `whisper`, `engines`, `models`, `sidecar`: profiles,
  decoder settings, model names, paths and URLs, the model catalogue.
- `export`, `capture`, `session`: subtitle cues and rendering, capture and
  session control.

Laws that relate several functions are public proof functions named
`law_*`.

`app/` is the unverified shell: audio decoding and resampling, the timed
audio buffers and floating-point arithmetic of the processors, file and
network I/O, and a small command-line front end.

`tests/` exercises the library on concrete values.
