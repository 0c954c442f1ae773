# assay

Assay reads a spec (a line-oriented list of witnesses about some code) and a
Repomix bundle (a whole repository packed into one XML document), hands the
witnesses to the target language's test runner, and emits a deterministic
report with SHA-256 fingerprints of the spec, the bundle and the report body.

The library under `src/` is verified with Verus:

- `spec::parser` parses spec text; its result is stated exactly by the spec
  function `spec_of_text`, errors included.
- `bundle::repomix` parses a Repomix document into an ordered `TextMap` of
  path to content (`file_entries`), refusing paths that contain `..`.
- `report` writes canonical JSON (sorted keys, no whitespace, six-decimal
  fixed point) and fingerprints it; `report::builder` computes the summary
  (counts, satisfaction, the soft objective rounded half up to millionths)
  and builds the report.
- `verify` holds the decisions taken before any file is written: parse both
  inputs and select the runner.
- `digest` calls `sha2` for the SHA-256 digest. That call, `String::push`
  and the clock read by `report::builder::build` are the trusted items;
  everything else is proved.

`app/` is the command line: argument parsing, reading and writing files,
temporary directories and the runner interface over real paths.
