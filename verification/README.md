# minimal-tts

The logic of an offline read-aloud application, verified with Verus.

Text is cut into sentences, its punctuation is kept aside while a phonemizer turns the
words into phonemes, the phonemes become tokens for a speech model, and the words of the
text are matched with what the model speaks. A reader plays the sentences one after the
other, asks for audio ahead of time, keeps what it has, and follows playback word by word.

- `src/` is the library. Every function has a contract that Verus proves. What the library
  needs of other crates (regular expressions, sentence boundaries, JSON, ZIP) and of the
  standard library stands behind small functions whose contracts are stated, not proved;
  each says in its doc comment what it claims of which function.
- `tests/` run the library on concrete values.
- `app/` is the program around it: the command line, espeak-ng, the ONNX model, the audio
  device and the window. All floating-point work is there. It builds in the model's
  configuration: put `kokoro-config.json` beside `app/places.rs` first.

Where to start reading: `text` and `bytes` for how text is modelled; `segment`, `g2p`,
`punctuation`, `phonemes`, `align` and `speech` for the way from text to timed words;
`scene` for the reader as a state machine, and `player` and `export` for the code that
follows it.
