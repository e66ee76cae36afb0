# mdx_formatter

A Markdown / MDX formatter whose formatting logic is verified with Verus.

One formatting pass parses the document (`markdown` crate), lets each
enabled rule contribute line operations (element spacing, JSX layout and
indentation, blank lines inside block components, YAML frontmatter,
list indentation, the list-normalize rules, HTML blocks), applies them,
inserts blank lines between adjacent blocks and collapses empty-line runs.
`format` repeats passes until the text is stable (at most three); a text
that is still changing after the third pass is returned unchanged.

Layout:

- `src/` — the verified library. `formatter.rs` is the pipeline and its
  laws; `rules.rs`, `jsx_rules.rs`, `list_rules.rs`, `yaml_emit.rs` and
  `html_formatter.rs` hold the rules; `ops.rs` applies operations;
  `lines.rs` holds the two whole-document passes; `config.rs` merges the
  configuration layers. The `markdown`, `regex`, `serde_yaml`,
  `serde_json` and `glob` crates are reached (from `parser.rs`,
  `pattern.rs`, `yaml_emit.rs`, `config.rs` and `paths.rs`) through
  trusted items with stated contracts;
  `paths.rs`, `discovery.rs`, `report.rs` and `run.rs` hold the command
  line's decisions: operand handling, which ignore sources apply to which
  files, the file list, the dry-run report, the status and summary lines
  and the exit status.
- `tests/` — behaviour and scenario tests.
- `app/` — the `mdx-formatter` command line: argument parsing, file
  discovery (`glob`, `ignore`), configuration files, terminal output.
