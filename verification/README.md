# kovacs

Static triage of suspicious files: it fingerprints a sample (SHA-256), tells executables from
scripts, and digs indicators of compromise out of scripts: URLs and IP addresses, base64
payloads, `StrReverse` tricks, strings assembled across several assignments, and payloads
hidden as two number arrays whose sums are character codes.

Layout:

- `src/` — the verified library. Every detector states, over specification functions, exactly
  what it reports; laws about the findings (each finding is a threat, lists have no
  repetitions, decoded text is printable, …) are proved next to the detectors.
  - `detectors/` — base64 strings, network indicators, plaintext lines.
  - `engines/` — array arithmetic, `StrReverse`, stateful concatenation and its variable memory.
  - `utils/` — the threat-indicator rule and file classification.
  - `text.rs`, `numbers.rs` — character-level helpers (trim, split, lines, integer parsing).
  - `patterns.rs` — the regular expressions and the calls into `regex`.
  - `models.rs`, `scan.rs`, `fingerprint.rs`, `binary.rs` — the scan result and its report,
    a whole script scan, the sample fingerprint, suspicious PE imports.
- `app/` — the command-line program: file and directory handling, logging, JSON output.
- `tests/` — tests on concrete samples.

A text counts as a threat when, ignoring ASCII case, it holds one of the indicators listed in
`src/utils/treat_detection.rs` (URL schemes, script hosts, loaders, payload extensions).
