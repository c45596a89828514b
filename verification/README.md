# rtk_core

Verified building blocks for compressing command output:

- `text`: character-level text model (trimming, lines, words, substring search, decimal output).
- `curl`: truncation of long curl response bodies shown on a terminal.
- `lcs`, `delta`: longest common subsequence of line sequences and line-level deltas.
- `simhash`: SimHash fingerprints used to decide whether two texts are near-duplicates.
- `runner`: options and the pure decisions of the command runner.
- `output_check`: the six checks that decide whether a compressed output may replace the original text.

`src/` is verified with Verus; `app/` holds the process and file plumbing.
