# kagu

A conventional-commit auditor. The library (`src/`) holds the rules and is
verified with Verus; `app/` is the `kagu` command around it.

- `validator` parses a subject line (`<type>(<scope>)?!?: <description>`) and
  lists its violations; `validate` is stated exactly over `spec_validate`.
- `scanner` reads the records that `git log` prints with `log_format_arg`.
- `report` counts results into a report (statuses, score, types, authors);
  `render` turns a report into text.
- `hook` decides when the commit-msg hook may be written or removed, and
  where the hooks directory is.
- `text` and `tally` hold the character-level operations and the sorted
  counting that the others share.

The score is the whole percent of clean commits among all commits, rounded
down (100 when every commit was skipped); an author's score is the percent of
that author's clean commits, rounded to the nearest. Both are computed and proved
in `report::build`.
The `git` process, the hook file and printing stay in `app/`.
