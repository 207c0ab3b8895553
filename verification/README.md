# say

A text-to-speech front end for the macOS speech synthesizer, with word
highlighting and a progress bar. The logic is a Verus-verified library; the
program around it lives in `app/`.

## Layout

- `src/text.rs` – UTF-8 facts (byte offsets, character boundaries),
  whitespace, decimal numbers, and the calls into std that decode bytes and
  collect characters.
- `src/chunk.rs` – cutting long text into chunks of at most 2000 bytes at
  paragraph, line, sentence or word breaks (`split_chunks`, `snap_to_break`),
  with the proof that chunks are well formed and lose nothing but whitespace.
- `src/utf16.rs` – `Utf16Map`, from the UTF-16 positions the speech engine
  reports to byte offsets, with the proof that character edges map exactly.
- `src/display.rs` – the terminal frames drawn while speaking: the text with
  the current word in reverse video, cursor movements, the final frame.
- `src/vterm.rs` – a small virtual terminal that interprets those frames and
  records overwritten text; its behaviour is given by the spec `run`.
- `src/voice.rs` – voices, Pascal-string names, case-insensitive lookup,
  status codes, and the queue of spoken-word events.
- `app/` – command line, file and terminal I/O, the speech framework calls
  and the floating-point progress bar.
- `tests/` – scenario tests for every module.
