# mpatch

A context-aware patch tool: it applies unified diffs found in markdown code blocks by
searching for each hunk's context instead of trusting line numbers, with an exact match
first, then a match that ignores trailing whitespace, then a fuzzy match whose similarity
must reach a threshold.

The library in `src/` is verified with Verus:

- `parse` reads ` ```diff ` blocks into patches (a line-by-line state machine);
- `hunk`, `patch` hold hunks and patches, with inversion;
- `finder` locates a hunk's match block in target lines;
- `apply` applies hunks to lines, one by one or a whole patch;
- `report`, `files` describe the outcomes, and what to write back to a file;
- `normalize`, `anonymize` serve the debug report;
- `laws` states and proves properties that span these operations;
- `diffing` holds the calls into the `similar` crate.

Similarities, scores and the fuzz factor are counted in billionths (`1_000_000_000` is
one), so that every comparison is exact.

`app/` is the command-line tool around the library: arguments, file I/O, logging and the
debug report.
