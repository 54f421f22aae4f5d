# downloader_cli

The verified core of `dw`, a command-line file downloader with a coloured
progress bar, written in Verus.

- `src/color.rs`: the table of colour names, colour validation and wrapping
  text in ANSI colour sequences.
- `src/download.rs`: the decisions of a download run: the file name a URL
  names, where each file is saved, what happens to a file that is already
  there, the `Range` request for resuming, the progress bar, the lines of a
  batch file and the walk through a list of URLs.
- `src/outside.rs`: the calls into `regex`, `shellexpand` and `reqwest`
  (header maps), with the contracts the proofs rely on.
- `src/text.rs`: character-level helpers on strings.
- `app/`: the `dw` program itself: argument parsing, the network and file
  work, and the floating-point figures of the progress line.
