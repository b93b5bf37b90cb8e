# osh line handling, verified

The command-line core of a small shell, written in Verus:

- `src/keymap.rs`: the Russian (JCUKEN) layout, Latin key to the UTF-8 bytes
  of a Cyrillic letter, with proofs that every key yields a distinct lowercase
  Russian letter and every such letter has a key.
- `src/io.rs`: whitespace bytes.
- `src/pipeline.rs`: splitting a line into `|`-separated segments with `<`,
  `>` and a trailing `&`; proofs that every range it returns is a word of the
  line, in order, within the limits.
- `src/editor.rs`: the raw-mode line editor (key decoding, insertion,
  deletion, cursor moves, history and completion replacement) and its echo.
- `src/external.rs`: the `/bin/<cmd>` path of an external command, the
  decisions taken on the system's answers while running it, and the
  exit-code report.
- `app/main.rs`: the prompt loop on standard input and output, and running
  external commands.
