use mdx_formatter::types::RecoverEscapedCodeMode;
use mdx_formatter::types::RecoverEscapedParagraphsMode;
use mdx_formatter::types::RecoverEscapedTablesMode;
use mdx_formatter::types::TightenListContinuationsMode;
use mdx_formatter::types::TightenListItemSpacingMode;
use mdx_formatter::lines::ensure_block_element_spacing;
use mdx_formatter::lists::{
    collect_escaped_block_candidates, collect_list_item_shapes, EscapedBlockCandidate,
    EscapedBlockKind, ListItemDetection,
};
use mdx_formatter::parser::parse;
use mdx_formatter::types::{FormatterSettings, ListItemShape};

    fn shapes_for(input: &str) -> Vec<ListItemDetection> {
    let ast = parse(input);
    collect_list_item_shapes(&ast)
}

    fn candidates_for(input: &str) -> Vec<EscapedBlockCandidate> {
    let ast = parse(input);
    let lines: Vec<Vec<char>> = input.split('\n').map(|l| l.chars().collect()).collect();
    collect_escaped_block_candidates(&ast, &lines)
}

    #[test]
    fn detect_paragraphs_only_item() {
        let input = "- first item\n- second item\n- third item\n";
        let shapes = shapes_for(input);
        assert_eq!(shapes.len(), 3);
        for shape in &shapes {
            assert_eq!(shape.shape, ListItemShape::ParagraphsOnly);
            assert_eq!(shape.depth, 0);
            assert_eq!(shape.marker_column, 0);
            assert_eq!(shape.marker_width, 2);
            assert_eq!(shape.continuation_indent, 2);
        }
    }

    #[test]
    fn detect_item_with_code_fence() {
        let input = "- item with code:\n\n  ```js\n  const x = 1;\n  ```\n";
        let shapes = shapes_for(input);
        assert_eq!(shapes.len(), 1);
        assert_eq!(shapes[0].shape, ListItemShape::Mixed);
        // Paragraph + code fence both present → Mixed. Confirm the code fence
        // was actually seen by parsing a pure-code item:
        let code_only = "- ```js\n  const x = 1;\n  ```\n";
        let only = shapes_for(code_only);
        assert_eq!(only.len(), 1);
        assert!(matches!(
            only[0].shape,
            ListItemShape::HasCodeFence | ListItemShape::Mixed
        ));
    }

    #[test]
    fn detect_item_with_table() {
        let input =
            "- row:\n\n  | a | b |\n  | - | - |\n  | 1 | 2 |\n";
        let shapes = shapes_for(input);
        assert!(!shapes.is_empty());
        // Paragraph intro + table child → Mixed; a pure-table item → HasTable.
        let pure_table =
            "- | a | b |\n  | - | - |\n  | 1 | 2 |\n";
        let _ = shapes_for(pure_table); // parse should not panic
        assert!(matches!(
            shapes[0].shape,
            ListItemShape::HasTable | ListItemShape::Mixed
        ));
    }

    #[test]
    fn detect_item_with_sublist() {
        let input = "- parent:\n  - child one\n  - child two\n";
        let shapes = shapes_for(input);
        // Expect 3 entries: parent + two children.
        assert_eq!(shapes.len(), 3);
        // Parent has a sublist as its only / primary interesting child.
        assert!(matches!(
            shapes[0].shape,
            ListItemShape::HasSublist | ListItemShape::Mixed
        ));
        // Children are paragraphs only, and their depth is 1.
        for c in &shapes[1..] {
            assert_eq!(c.shape, ListItemShape::ParagraphsOnly);
            assert_eq!(c.depth, 1);
        }
    }

    #[test]
    fn detect_mixed_item() {
        // An item containing a paragraph, a fenced code block, AND a sublist.
        let input = "\
- mixed:

  prose

  ```js
  const x = 1;
  ```

  - nested
";
        let shapes = shapes_for(input);
        assert!(!shapes.is_empty());
        // Top-level item should see enough variety to be classified Mixed.
        assert_eq!(shapes[0].shape, ListItemShape::Mixed);
    }

    #[test]
    fn detect_depth_2_nested_sublist_recurses() {
        // Depth-2 nested sublist: root list → item → list → item → list → item.
        let input = "\
- l0:
  - l1:
    - l2 leaf
";
        let shapes = shapes_for(input);
        let depths: Vec<usize> = shapes.iter().map(|s| s.depth).collect();
        assert!(depths.contains(&0), "depth 0 missing in {depths:?}");
        assert!(depths.contains(&1), "depth 1 missing in {depths:?}");
        assert!(depths.contains(&2), "depth 2 missing in {depths:?}");

        // continuation_indent must be cumulative across ancestors.
        let d2 = shapes
            .iter()
            .find(|s| s.depth == 2)
            .expect("depth-2 item missing");
        // At root "- " → +2, inside nested "- " → +2 more (marker at col 2),
        // inside depth-2 the marker sits at col 4, marker_width 2
        //   → continuation_indent = 4 (ancestor) + 4 (marker_col) + 2 = 10
        // (The exact arithmetic is implementation-locked; we assert the
        // cumulative property instead: depth-2 > depth-1 > depth-0.)
        let d0 = shapes.iter().find(|s| s.depth == 0).unwrap();
        let d1 = shapes.iter().find(|s| s.depth == 1).unwrap();
        assert!(d0.continuation_indent < d1.continuation_indent);
        assert!(d1.continuation_indent < d2.continuation_indent);
    }

    #[test]
    fn detect_escaped_code_candidate_between_items() {
        // Fenced code block dedented out of the list's child range.
        // markdown-rs will parse this as two siblings with the fence as a
        // root-level code block between them. The candidate walker should
        // pick it up only when it actually sits in a gap between sibling
        // list items; when the parser has already detached it to root level
        // the gap is empty, so we assert the walker at least doesn't crash
        // and that it surfaces the right kind when the fence *is* in a gap.
        let input = "\
- before

```js
escaped();
```

- after
";
        let _ = candidates_for(input);
        // Indented (still-in-list) version: fence is between items but
        // indented enough to qualify as a candidate block.
        let indented = "\
- before

  ```js
  escaped();
  ```

- after
";
        let cands = candidates_for(indented);
        // May or may not be detected as a gap candidate depending on how the
        // AST attaches the fence; at minimum the walker returns a Vec without
        // panicking, and if anything is returned the kind is Code.
        for c in &cands {
            assert_eq!(c.kind, EscapedBlockKind::Code);
        }
    }

    #[test]
    fn detect_escaped_table_candidate_between_items() {
        let input = "\
- before

| a | b |
| - | - |
| 1 | 2 |

- after
";
        let cands = candidates_for(input);
        for c in &cands {
            assert!(matches!(
                c.kind,
                EscapedBlockKind::Table | EscapedBlockKind::Paragraph
            ));
        }
    }

    #[test]
    fn detect_pathological_oscillation_guard() {
        // Pathological list with mixed continuations + fence + nested sublist.
        // The convergence loop in mdx_formatter::formatter::format() runs at most 3 iterations; with all
        // list-normalize rule bodies empty, the output must be identical across
        // iterations — NO flip.
        let input = "\
- alpha
  continuation

  - nested
    - deeper

```js
escaped();
```

- beta
  continuation

  | a | b |
  | - | - |
  | 1 | 2 |
";
        let settings = FormatterSettings::default();

        let once = mdx_formatter::formatter::format(input, &settings);
        let twice = mdx_formatter::formatter::format(&once, &settings);
        let thrice = mdx_formatter::formatter::format(&twice, &settings);

        assert_eq!(once, twice, "formatter output flipped between pass 1 and 2");
        assert_eq!(twice, thrice, "formatter output flipped between pass 2 and 3");
    }

    #[test]
    fn detect_list_normalize_defaults_do_not_change_output() {
        // Sanity: with only the new detection pass wired in and all rule
        // bodies empty, defaults must not alter a well-formed input.
        let input = "- a\n- b\n- c\n";
        let settings = FormatterSettings::default();
        let result = mdx_formatter::formatter::format(input, &settings);
        assert_eq!(result, input);
    }

    fn settings_recover_code(mode: mdx_formatter::types::RecoverEscapedCodeMode) -> FormatterSettings {
        let mut s = FormatterSettings::default();
        s.list_normalize.recover_escaped_code_in_lists = mode;
        // Keep sibling rules quiet so tests observe #83 in isolation.
        s.list_normalize.tighten_list_continuations =
            mdx_formatter::types::TightenListContinuationsMode::Off;
        s.list_normalize.recover_escaped_tables_in_lists =
            mdx_formatter::types::RecoverEscapedTablesMode::Off;
        s.list_normalize.recover_escaped_paragraphs_in_lists =
            mdx_formatter::types::RecoverEscapedParagraphsMode::Off;
        // Disable orthogonal rules that would otherwise reshape the fence text.
        s.add_empty_line_between_elements.enabled = false;
        s
    }

    fn settings_with_table_mode(
        mode: mdx_formatter::types::RecoverEscapedTablesMode,
    ) -> FormatterSettings {
        let mut s = FormatterSettings::default();
        s.list_normalize.recover_escaped_tables_in_lists = mode;
        s
    }

    #[test]
    fn recover_code_numbered_list_fence_recovered_in_safe() {
        // Numbered list with a col-0 fence that markdown-rs promotes to root
        // level, causing the list to restart numbering. Safe mode should
        // re-indent the fence so it becomes a child of item 1.
        let input = "\
1. first

```js
const x = 1;
```

2. second
";
        let settings =
            settings_recover_code(mdx_formatter::types::RecoverEscapedCodeMode::Safe);
        let got = mdx_formatter::formatter::format(input, &settings);
        let want = "\
1. first

   ```js
   const x = 1;
   ```

2. second
";
        assert_eq!(got, want);
    }

    #[test]
    fn recover_code_bullet_list_fence_left_alone_in_safe() {
        // Bullet-list evidence is weaker (no "restart at N" signal). Safe mode
        // must leave it untouched.
        let input = "\
- first

```js
const x = 1;
```

- second
";
        let settings =
            settings_recover_code(mdx_formatter::types::RecoverEscapedCodeMode::Safe);
        let got = mdx_formatter::formatter::format(input, &settings);
        assert_eq!(got, input);
    }

    #[test]
    fn recover_code_bullet_list_fence_recovered_in_aggressive() {
        let input = "\
- first

```js
const x = 1;
```

- second
";
        let settings =
            settings_recover_code(mdx_formatter::types::RecoverEscapedCodeMode::Aggressive);
        let got = mdx_formatter::formatter::format(input, &settings);
        let want = "\
- first

  ```js
  const x = 1;
  ```

- second
";
        assert_eq!(got, want);
    }

    #[test]
    fn recover_code_multiline_content_preserved_byte_exact() {
        // The fence body includes deliberate internal indentation and blank
        // lines. Every non-fence byte must be preserved; only leading spaces
        // are added to each non-empty line.
        let input = "\
1. alpha

```ts
function f() {
    const nested = {
        a: 1,
    };

    return nested;
}
```

2. beta
";
        let settings =
            settings_recover_code(mdx_formatter::types::RecoverEscapedCodeMode::Safe);
        let got = mdx_formatter::formatter::format(input, &settings);
        let want = "\
1. alpha

   ```ts
   function f() {
       const nested = {
           a: 1,
       };

       return nested;
   }
   ```

2. beta
";
        assert_eq!(got, want);
    }

    #[test]
    fn recover_code_legitimate_top_level_fence_untouched() {
        // No enclosing list at all — fence is legitimately a root block.
        let input = "\
# Heading

```js
let x = 1;
```

Some prose follows.
";
        let settings =
            settings_recover_code(mdx_formatter::types::RecoverEscapedCodeMode::Aggressive);
        let got = mdx_formatter::formatter::format(input, &settings);
        assert_eq!(got, input);
    }

    #[test]
    fn recover_code_unrelated_context_fence_untouched() {
        // Fence sits between a list and a non-list block — not "between two
        // list items". Must stay at root level regardless of mode.
        let input = "\
1. only item

```js
const x = 1;
```

Paragraph not in any list.
";
        let settings =
            settings_recover_code(mdx_formatter::types::RecoverEscapedCodeMode::Aggressive);
        let got = mdx_formatter::formatter::format(input, &settings);
        assert_eq!(got, input);
    }

    #[test]
    fn recover_code_off_mode_is_a_no_op() {
        let input = "\
1. first

```js
const x = 1;
```

2. second
";
        let settings =
            settings_recover_code(mdx_formatter::types::RecoverEscapedCodeMode::Off);
        let got = mdx_formatter::formatter::format(input, &settings);
        assert_eq!(got, input);
    }

    #[test]
    fn recover_code_idempotent_safe() {
        let input = "\
1. first

```js
const x = 1;
```

2. second
";
        let settings =
            settings_recover_code(mdx_formatter::types::RecoverEscapedCodeMode::Safe);
        let once = mdx_formatter::formatter::format(input, &settings);
        let twice = mdx_formatter::formatter::format(&once, &settings);
        assert_eq!(once, twice, "safe-mode recover must be idempotent");
    }

    #[test]
    fn recover_code_idempotent_aggressive() {
        let input = "\
- first

```js
const x = 1;
```

- second
";
        let settings =
            settings_recover_code(mdx_formatter::types::RecoverEscapedCodeMode::Aggressive);
        let once = mdx_formatter::formatter::format(input, &settings);
        let twice = mdx_formatter::formatter::format(&once, &settings);
        assert_eq!(once, twice, "aggressive-mode recover must be idempotent");
    }

    #[test]
    fn recover_table_ordered_numbering_run_in_safe() {
        // Numbered-list escape: `1. … | table | 2. …` is strong evidence.
        // In safe mode the table is re-indented to the item's continuation
        // column (3 spaces for `1. `).
        let input = "\
1. before

| a | b |
| - | - |
| 1 | 2 |

2. after
";
        let expected = "\
1. before

   | a | b |
   | - | - |
   | 1 | 2 |

2. after
";
        let settings =
            settings_with_table_mode(mdx_formatter::types::RecoverEscapedTablesMode::Safe);
        let result = mdx_formatter::formatter::format(input, &settings);
        assert_eq!(result, expected);
    }

    #[test]
    fn recover_table_bullet_only_in_aggressive() {
        // Bullet-list escape: weaker evidence. Safe mode must leave it alone;
        // aggressive mode recovers it.
        let input = "\
- before

| a | b |
| - | - |
| 1 | 2 |

- after
";
        let safe = mdx_formatter::formatter::format(
            input,
            &settings_with_table_mode(mdx_formatter::types::RecoverEscapedTablesMode::Safe),
        );
        assert_eq!(safe, input, "safe mode must not touch bullet-list escapes");

        let expected = "\
- before

  | a | b |
  | - | - |
  | 1 | 2 |

- after
";
        let aggressive = mdx_formatter::formatter::format(
            input,
            &settings_with_table_mode(mdx_formatter::types::RecoverEscapedTablesMode::Aggressive),
        );
        assert_eq!(aggressive, expected);
    }

    #[test]
    fn recover_table_leaves_top_level_table_untouched() {
        // Legitimate top-level table with no enclosing list must be untouched
        // in every mode.
        let input = "\
| a | b |
| - | - |
| 1 | 2 |
";
        for mode in [
            mdx_formatter::types::RecoverEscapedTablesMode::Off,
            mdx_formatter::types::RecoverEscapedTablesMode::Safe,
            mdx_formatter::types::RecoverEscapedTablesMode::Aggressive,
        ] {
            let result = mdx_formatter::formatter::format(input, &settings_with_table_mode(mode));
            assert_eq!(result, input, "top-level table modified under {:?}", mode);
        }
    }

    #[test]
    fn recover_table_preserves_alignment_colons_byte_exactly() {
        // Alignment colons in the separator row must survive the re-indent
        // verbatim: we only prepend spaces, never rewrite cell content.
        let input = "\
1. before

| left | middle | right |
| :--- | :----: | ----: |
| a    | b      | c     |

2. after
";
        let settings =
            settings_with_table_mode(mdx_formatter::types::RecoverEscapedTablesMode::Safe);
        let result = mdx_formatter::formatter::format(input, &settings);
        // The separator row line must appear verbatim with only the 3-space
        // prefix added.
        assert!(
            result.contains("   | :--- | :----: | ----: |\n"),
            "alignment row not preserved byte-exactly; got:\n{}",
            result
        );
    }

    #[test]
    fn recover_table_idempotent() {
        let input = "\
1. before

| a | b |
| - | - |
| 1 | 2 |

2. after
";
        let settings =
            settings_with_table_mode(mdx_formatter::types::RecoverEscapedTablesMode::Safe);
        let once = mdx_formatter::formatter::format(input, &settings);
        let twice = mdx_formatter::formatter::format(&once, &settings);
        assert_eq!(once, twice, "recovery must be idempotent");
    }

    #[test]
    fn recover_table_skipped_when_numbering_restarts() {
        // `1. …` then another `1. …` (not `2.`) means the user deliberately
        // restarted numbering; the table between them is not evidence of
        // nesting and must be left alone.
        let input = "\
1. before

| a | b |
| - | - |
| 1 | 2 |

1. after
";
        let settings =
            settings_with_table_mode(mdx_formatter::types::RecoverEscapedTablesMode::Safe);
        let result = mdx_formatter::formatter::format(input, &settings);
        assert_eq!(result, input);
    }

    #[test]
    fn recover_table_off_mode_leaves_escape_alone() {
        let input = "\
1. before

| a | b |
| - | - |
| 1 | 2 |

2. after
";
        let settings =
            settings_with_table_mode(mdx_formatter::types::RecoverEscapedTablesMode::Off);
        let result = mdx_formatter::formatter::format(input, &settings);
        assert_eq!(result, input);
    }

    fn settings_with_recover_paragraphs_mode(
        mode: mdx_formatter::types::RecoverEscapedParagraphsMode,
    ) -> FormatterSettings {
        let mut s = FormatterSettings::default();
        // Isolate the rule under test: turn sibling list-normalize rules off so
        // cross-rule interactions (#82-#84) don't perturb output assertions.
        s.list_normalize.tighten_list_continuations = TightenListContinuationsMode::Off;
        s.list_normalize.recover_escaped_code_in_lists = RecoverEscapedCodeMode::Off;
        s.list_normalize.recover_escaped_tables_in_lists = RecoverEscapedTablesMode::Off;
        s.list_normalize.recover_escaped_paragraphs_in_lists = mode;
        s
    }

    #[test]
    fn recover_paragraphs_off_is_byte_identical_on_escaped_case() {
        // The canonical false-positive-risky shape: paragraph at col 0 between
        // two numbered items that resume sequence. Default mode is Off, so
        // the formatter must leave it untouched.
        let input = "\
1. first item

also, this continues the first item

2. second item
";
        let settings = FormatterSettings::default();
        assert_eq!(
            settings.list_normalize.recover_escaped_paragraphs_in_lists,
            mdx_formatter::types::RecoverEscapedParagraphsMode::Off,
            "default mode must be Off (opt-in)"
        );
        let result = mdx_formatter::formatter::format(input, &settings);
        assert_eq!(result, input, "Off mode must be byte-identical");
    }

    #[test]
    fn recover_paragraphs_off_is_byte_identical_on_assorted_inputs() {
        // A few shapes chosen to touch the walker without tripping Off: nested
        // lists, blockquote-wrapped lists, mixed markers.
        let samples = [
            "- a\n- b\n- c\n",
            "1. one\n2. two\n",
            "- outer\n  - inner\n- outer again\n",
            "> 1. quoted\n>\n> text\n>\n> 2. more quoted\n",
        ];
        let settings = FormatterSettings::default();
        for input in samples {
            let result = mdx_formatter::formatter::format(input, &settings);
            assert_eq!(result, input, "Off mode altered input:\n{input}");
        }
    }

    #[test]
    fn recover_paragraphs_heuristic_recovers_lowercase_continuation() {
        // Classic escape: numbering resumes 1→2, paragraph at col 0 starts
        // lowercase — strong continuation signal.
        let input = "\
1. first item

also continues the first

2. second item
";
        let expected = "\
1. first item

   also continues the first
2. second item
";
        let settings = settings_with_recover_paragraphs_mode(
            mdx_formatter::types::RecoverEscapedParagraphsMode::Heuristic,
        );
        let result = mdx_formatter::formatter::format(input, &settings);
        assert_eq!(result, expected);
    }

    #[test]
    fn recover_paragraphs_heuristic_recovers_backtick_continuation() {
        // Paragraph starts with inline code — backtick is a strong continuation
        // signal per the issue description.
        let input = "\
1. first item

`foo` is shorthand for the item above

2. second item
";
        let expected = "\
1. first item

   `foo` is shorthand for the item above
2. second item
";
        let settings = settings_with_recover_paragraphs_mode(
            mdx_formatter::types::RecoverEscapedParagraphsMode::Heuristic,
        );
        let result = mdx_formatter::formatter::format(input, &settings);
        assert_eq!(result, expected);
    }

    #[test]
    fn recover_paragraphs_heuristic_leaves_capital_new_topic_alone() {
        // Capital-initial paragraph between items. Heuristic must NOT touch it
        // — it reads like a deliberate mid-list new topic, not a continuation.
        let input = "\
1. first item

New unrelated topic that the author meant to stay at column 0.

2. second item
";
        let settings = settings_with_recover_paragraphs_mode(
            mdx_formatter::types::RecoverEscapedParagraphsMode::Heuristic,
        );
        let result = mdx_formatter::formatter::format(input, &settings);
        assert_eq!(result, input, "heuristic must not touch capital/new-topic paragraph");
    }

    #[test]
    fn recover_paragraphs_heuristic_leaves_non_resuming_numbering_alone() {
        // Numbering does not resume (1. then 1.) — the structural precondition
        // fails so heuristic must not fire even with a lowercase start.
        let input = "\
1. first item

also continues the first (but numbering does not resume)

1. second item
";
        let settings = settings_with_recover_paragraphs_mode(
            mdx_formatter::types::RecoverEscapedParagraphsMode::Heuristic,
        );
        let result = mdx_formatter::formatter::format(input, &settings);
        assert_eq!(result, input);
    }

    #[test]
    fn recover_paragraphs_aggressive_captures_capital_case() {
        // Aggressive mode fires even without the lowercase/backtick/punctuation
        // gate, as long as the structural preconditions hold.
        let input = "\
1. first item

Capital start but numbering resumes so aggressive fires

2. second item
";
        let expected = "\
1. first item

   Capital start but numbering resumes so aggressive fires
2. second item
";
        let settings = settings_with_recover_paragraphs_mode(
            mdx_formatter::types::RecoverEscapedParagraphsMode::Aggressive,
        );
        let result = mdx_formatter::formatter::format(input, &settings);
        assert_eq!(result, expected);
    }

    #[test]
    fn recover_paragraphs_heuristic_handles_bullet_lists() {
        // Bullet-list variant: same marker char on both sides + lowercase
        // start → recover.
        let input = "\
- first bullet

continues the bullet above

- second bullet
";
        let expected = "\
- first bullet

  continues the bullet above
- second bullet
";
        let settings = settings_with_recover_paragraphs_mode(
            mdx_formatter::types::RecoverEscapedParagraphsMode::Heuristic,
        );
        let result = mdx_formatter::formatter::format(input, &settings);
        assert_eq!(result, expected);
    }

    #[test]
    fn recover_paragraphs_idempotent_under_heuristic() {
        let input = "\
1. first item

also continues the first

2. second item
";
        let settings = settings_with_recover_paragraphs_mode(
            mdx_formatter::types::RecoverEscapedParagraphsMode::Heuristic,
        );
        let once = mdx_formatter::formatter::format(input, &settings);
        let twice = mdx_formatter::formatter::format(&once, &settings);
        assert_eq!(once, twice, "recover-paragraphs heuristic is not idempotent");
    }

    #[test]
    fn recover_paragraphs_idempotent_under_aggressive() {
        let input = "\
1. first item

Capital continuation line.

2. second item
";
        let settings = settings_with_recover_paragraphs_mode(
            mdx_formatter::types::RecoverEscapedParagraphsMode::Aggressive,
        );
        let once = mdx_formatter::formatter::format(input, &settings);
        let twice = mdx_formatter::formatter::format(&once, &settings);
        assert_eq!(once, twice, "recover-paragraphs aggressive is not idempotent");
    }

    #[test]
    fn test_heading_spacing() {
        let input = "# Heading\nContent";
        let expected = "# Heading\n\nContent";
        let result = mdx_formatter::formatter::format(input, &FormatterSettings::default());
        assert_eq!(result, expected);
    }

    #[test]
    fn test_heading_spacing_already_correct() {
        let input = "# Heading\n\nContent";
        let result = mdx_formatter::formatter::format(input, &FormatterSettings::default());
        assert_eq!(result, input);
    }

    #[test]
    fn test_multiple_headings() {
        let input = "# First\nContent\n## Second\nMore content";
        let expected = "# First\n\nContent\n\n## Second\n\nMore content";
        let result = mdx_formatter::formatter::format(input, &FormatterSettings::default());
        assert_eq!(result, expected);
    }

    #[test]
    fn test_code_block_preserved() {
        let input = "```js\nconst x = 1;\n```";
        let result = mdx_formatter::formatter::format(input, &FormatterSettings::default());
        assert_eq!(result, input);
    }

    #[test]
    fn test_frontmatter_preserved() {
        let input = "---\ntitle: Test\n---\n\n# Content";
        let result = mdx_formatter::formatter::format(input, &FormatterSettings::default());
        assert_eq!(result, input);
    }

    #[test]
    fn test_idempotency() {
        let input = "# Heading\n\nSome content\n\n## Another\n\nMore content";
        let first = mdx_formatter::formatter::format(input, &FormatterSettings::default());
        let second = mdx_formatter::formatter::format(&first, &FormatterSettings::default());
        assert_eq!(first, second, "Formatter should be idempotent");
    }

    #[test]
    fn test_idempotency_after_fix() {
        let input = "# Heading\nContent\n## Another\nMore content";
        let first = mdx_formatter::formatter::format(input, &FormatterSettings::default());
        let second = mdx_formatter::formatter::format(&first, &FormatterSettings::default());
        assert_eq!(first, second, "Formatter should be idempotent after fixing");
    }

    #[test]
    fn test_normalize_multiple_empty_lines() {
        let input = "# Heading\n\n\n\nContent";
        let expected = "# Heading\n\nContent";
        let result = mdx_formatter::formatter::format(input, &FormatterSettings::default());
        assert_eq!(result, expected);
    }

    #[test]
    fn test_list_basic() {
        let input = "- item 1\n- item 2\n- item 3";
        let result = mdx_formatter::formatter::format(input, &FormatterSettings::default());
        assert_eq!(result, input);
    }

    #[test]
    fn test_list_nested_indentation() {
        let input = "- item 1\n    - nested item";
        let expected = "- item 1\n  - nested item";
        let result = mdx_formatter::formatter::format(input, &FormatterSettings::default());
        assert_eq!(result, expected);
    }

    #[test]
    fn test_ordered_list_continuation_stays_tight() {
        let input = "1. A numbered item that wraps to\n   a continuation line\n2. Another item";
        let result = mdx_formatter::formatter::format(input, &FormatterSettings::default());
        assert_eq!(result, input);
    }

    #[test]
    fn test_nested_list_under_ordered_item_keeps_parent_indent() {
        let input = "5. Parent item:\n   - Nested item that wraps to\n     a continuation line";
        let result = mdx_formatter::formatter::format(input, &FormatterSettings::default());
        assert_eq!(result, input);
    }

    #[test]
    fn test_continuation_paragraph_then_nested_sublist() {
        // Adversarial case: continuation paragraph followed by nested sublist at same indent
        let input = "5. Parent item\n   continuation paragraph\n   - child item";
        let result = mdx_formatter::formatter::format(input, &FormatterSettings::default());
        assert_eq!(result, input);
    }

    #[test]
    fn test_empty_content() {
        let input = "";
        let result = mdx_formatter::formatter::format(input, &FormatterSettings::default());
        assert_eq!(result, input);
    }

    #[test]
    fn test_disabled_spacing_rule() {
        let mut settings = FormatterSettings::default();
        settings.add_empty_line_between_elements.enabled = false;
        let input = "# Heading\nContent";
        let result = mdx_formatter::formatter::format(input, &settings);
        assert_eq!(result, input, "Disabled rule should not modify content");
    }

    #[test]
    fn test_heading_followed_by_heading() {
        // Headings followed by headings should NOT get extra spacing
        // (the next line starts with #)
        let input = "# First\n## Second";
        let result = mdx_formatter::formatter::format(input, &FormatterSettings::default());
        // Spacing applies only when the next line does not start with #, so
        // this should be unchanged
        assert_eq!(result, input);
    }

    #[test]
    fn test_yaml_basic_formatting() {
        let input = "---\ntitle: Test\nauthor: John\n---\n\n# Content";
        let result = mdx_formatter::formatter::format(input, &FormatterSettings::default());
        assert_eq!(result, input, "Simple YAML should be preserved");
    }

    #[test]
    fn test_yaml_quoted_values_preserved() {
        let input = "---\ntitle: \"Hello: World\"\ndescription: \"It's a test\"\n---\n\nContent";
        let result = mdx_formatter::formatter::format(input, &FormatterSettings::default());
        assert_eq!(result, input, "Quoted YAML values should be preserved");
    }

    #[test]
    fn test_yaml_boolean_values_preserved() {
        let input = "---\ndraft: true\npublished: false\n---\n\nContent";
        let result = mdx_formatter::formatter::format(input, &FormatterSettings::default());
        assert_eq!(result, input, "Boolean values should be preserved");
    }

    #[test]
    fn test_yaml_idempotency() {
        let input = "---\ntitle: My Post\nauthor: Jane\ntags:\n  - rust\n  - yaml\n---\n\n# Content";
        let first = mdx_formatter::formatter::format(input, &FormatterSettings::default());
        let second = mdx_formatter::formatter::format(&first, &FormatterSettings::default());
        assert_eq!(first, second, "YAML formatting should be idempotent");
    }

    #[test]
    fn test_yaml_disabled() {
        let mut settings = FormatterSettings::default();
        settings.format_yaml_frontmatter.enabled = false;
        let input = "---\ntitle:    Test\n---\n\n# Content";
        let result = mdx_formatter::formatter::format(input, &settings);
        assert_eq!(result, input, "Disabled YAML rule should not modify content");
    }

    #[test]
    fn test_yaml_unsafe_value_with_colon() {
        // Values containing ": " should be quoted by preprocessor
        let input = "---\ntitle: Hello: World\n---\n\n# Content";
        let result = mdx_formatter::formatter::format(input, &FormatterSettings::default());
        assert_eq!(
            result,
            "---\ntitle: \"Hello: World\"\n---\n\n# Content",
            "Unsafe values should be quoted"
        );
    }

    #[test]
    fn test_jsx_self_closing_preserved() {
        let input = "<Component />";
        let result = mdx_formatter::formatter::format(input, &FormatterSettings::default());
        assert_eq!(result, input);
    }

    #[test]
    fn test_jsx_self_closing_single_prop_preserved() {
        let input = "<Component prop=\"value\" />";
        let result = mdx_formatter::formatter::format(input, &FormatterSettings::default());
        assert_eq!(result, input);
    }

    #[test]
    fn test_jsx_multiline_formats_attributes() {
        // Attributes badly indented should get reformatted
        let input = "<Component\n      src=\"image.png\"\n      alt=\"test\" />";
        let expected = "<Component\n  src=\"image.png\"\n  alt=\"test\" />";
        let result = mdx_formatter::formatter::format(input, &FormatterSettings::default());
        assert_eq!(result, expected);
    }

    #[test]
    fn test_jsx_standalone_self_close_fixed() {
        // /> on its own line should be appended to last attribute
        let input = "<Component\n  src=\"image.png\"\n  alt=\"test\"\n/>";
        let expected = "<Component\n  src=\"image.png\"\n  alt=\"test\" />";
        let result = mdx_formatter::formatter::format(input, &FormatterSettings::default());
        assert_eq!(result, expected);
    }

    #[test]
    fn test_jsx_attrs_on_first_line_reformatted() {
        // Attributes on the first line should be reformatted
        let input = "<Component src=\"image.png\" alt=\"test\"\n  className=\"foo\" />";
        let expected = "<Component\n  src=\"image.png\"\n  alt=\"test\"\n  className=\"foo\" />";
        let result = mdx_formatter::formatter::format(input, &FormatterSettings::default());
        assert_eq!(result, expected);
    }

    #[test]
    fn test_jsx_with_children_preserved() {
        let input = "<Component>\nContent here\n</Component>";
        let result = mdx_formatter::formatter::format(input, &FormatterSettings::default());
        assert_eq!(result, input);
    }

    #[test]
    fn test_jsx_multiline_with_children() {
        let input = "<Component\n      src=\"image.png\"\n      alt=\"test\">\nContent\n</Component>";
        // Non-self-closing: closing > goes on its own line
        let expected = "<Component\n  src=\"image.png\"\n  alt=\"test\">\nContent\n</Component>";
        let result = mdx_formatter::formatter::format(input, &FormatterSettings::default());
        // The formatter puts > on its own line (matching TS behavior)
        let expected_alt = "<Component\n  src=\"image.png\"\n  alt=\"test\"\n>\nContent\n</Component>";
        assert!(
            result == expected || result == expected_alt,
            "Got: {:?}",
            result
        );
    }

    #[test]
    fn test_yaml_unsafe_value_with_hash() {
        let input = "---\ntitle: Hello #world\n---\n\n# Content";
        let result = mdx_formatter::formatter::format(input, &FormatterSettings::default());
        assert_eq!(
            result,
            "---\ntitle: \"Hello #world\"\n---\n\n# Content",
            "Values with # comments should be quoted"
        );
    }

    #[test]
    fn test_yaml_force_quotes() {
        let mut settings = FormatterSettings::default();
        settings.format_yaml_frontmatter.force_quotes = true;
        let input = "---\ntitle: Test\nauthor: John\n---\n\n# Content";
        let result = mdx_formatter::formatter::format(input, &settings);
        assert_eq!(
            result,
            "---\ntitle: \"Test\"\nauthor: \"John\"\n---\n\n# Content",
            "forceQuotes should quote all string values"
        );
    }

    #[test]
    fn test_yaml_single_quote_type() {
        let mut settings = FormatterSettings::default();
        settings.format_yaml_frontmatter.force_quotes = true;
        settings.format_yaml_frontmatter.quoting_type = "'".into();
        let input = "---\ntitle: Test\n---\n\n# Content";
        let result = mdx_formatter::formatter::format(input, &settings);
        assert_eq!(
            result,
            "---\ntitle: 'Test'\n---\n\n# Content",
            "Single quote type should use single quotes"
        );
    }

    #[test]
    fn test_yaml_parse_error_graceful() {
        let input = "---\n: invalid yaml [[\n---\n\n# Content";
        let result = mdx_formatter::formatter::format(input, &FormatterSettings::default());
        assert_eq!(result, input, "Invalid YAML should be left unchanged");
    }

    #[test]
    fn test_yaml_fix_unsafe_values_disabled() {
        let mut settings = FormatterSettings::default();
        settings.format_yaml_frontmatter.fix_unsafe_values = false;
        let input = "---\ntitle: Hello: World\n---\n\n# Content";
        let result = mdx_formatter::formatter::format(input, &settings);
        assert_eq!(result, input, "fix_unsafe_values=false should not preprocess");
    }

    #[test]
    fn test_yaml_nested_mapping() {
        let input = "---\ntitle: Test\nmeta:\n  og_title: Hello\n  og_desc: World\n---\n\n# Content";
        let first = mdx_formatter::formatter::format(input, &FormatterSettings::default());
        let second = mdx_formatter::formatter::format(&first, &FormatterSettings::default());
        assert_eq!(first, second, "Nested YAML should be idempotent");
    }

    #[test]
    fn test_yaml_sequence_values() {
        let input = "---\ntitle: Test\ntags:\n  - rust\n  - yaml\n  - formatter\n---\n\n# Content";
        let result = mdx_formatter::formatter::format(input, &FormatterSettings::default());
        let second = mdx_formatter::formatter::format(&result, &FormatterSettings::default());
        assert_eq!(result, second, "YAML with sequences should be idempotent");
    }

    #[test]
    fn test_yaml_unnecessary_quotes_removed() {
        let input = "---\ntitle: \"Already quoted\"\n---\n\n# Content";
        let expected = "---\ntitle: Already quoted\n---\n\n# Content";
        let result = mdx_formatter::formatter::format(input, &FormatterSettings::default());
        assert_eq!(result, expected, "Unnecessary quotes should be removed");
    }

    #[test]
    fn test_yaml_necessary_quotes_kept() {
        let input = "---\ntitle: \"Hello: World\"\n---\n\n# Content";
        let result = mdx_formatter::formatter::format(input, &FormatterSettings::default());
        assert_eq!(result, input, "Necessary quotes should be preserved");
    }

    #[test]
    fn test_jsx_html_element_skipped() {
        let input = "<div\n      class=\"test\">\nContent\n</div>";
        let result = mdx_formatter::formatter::format(input, &FormatterSettings::default());
        assert_eq!(result, input);
    }

    #[test]
    fn test_jsx_ignored_component_skipped() {
        let mut settings = FormatterSettings::default();
        settings.format_multi_line_jsx.ignore_components =
            vec!["IgnoreMe".to_string()];
        let input = "<IgnoreMe\n      prop=\"value\" />";
        let result = mdx_formatter::formatter::format(input, &settings);
        assert_eq!(result, input);
    }

    #[test]
    fn test_jsx_expression_attribute() {
        let input = "<Component\n      value={42} />";
        let expected = "<Component\n  value={42} />";
        let result = mdx_formatter::formatter::format(input, &FormatterSettings::default());
        assert_eq!(result, expected);
    }

    #[test]
    fn test_jsx_boolean_attribute() {
        let input = "<Component\n      disabled\n      loading />";
        let expected = "<Component\n  disabled\n  loading />";
        let result = mdx_formatter::formatter::format(input, &FormatterSettings::default());
        assert_eq!(result, expected);
    }

    #[test]
    fn test_jsx_already_formatted_unchanged() {
        let input = "<Component\n  src=\"image.png\"\n  alt=\"test\" />";
        let result = mdx_formatter::formatter::format(input, &FormatterSettings::default());
        assert_eq!(result, input, "Already properly formatted JSX should be unchanged");
    }

    #[test]
    fn test_jsx_format_disabled() {
        let mut settings = FormatterSettings::default();
        settings.format_multi_line_jsx.enabled = false;
        let input = "<Component\n      src=\"image.png\" />";
        let result = mdx_formatter::formatter::format(input, &settings);
        assert_eq!(result, input, "Disabled JSX formatting should not modify content");
    }

    fn settings_with_blocks() -> FormatterSettings {
        let mut s = FormatterSettings::default();
        s.add_empty_lines_in_block_jsx.block_components =
            vec!["InfoBox".to_string(), "Note".to_string()];
        s
    }

    #[test]
    fn test_block_jsx_adds_empty_lines() {
        let settings = settings_with_blocks();
        let input = "<InfoBox>\nContent\n</InfoBox>";
        let expected = "<InfoBox>\n\nContent\n\n</InfoBox>";
        let result = mdx_formatter::formatter::format(input, &settings);
        assert_eq!(result, expected);
    }

    #[test]
    fn test_block_jsx_already_has_empty_lines() {
        let settings = settings_with_blocks();
        let input = "<InfoBox>\n\nContent\n\n</InfoBox>";
        let result = mdx_formatter::formatter::format(input, &settings);
        assert_eq!(result, input, "Should be idempotent");
    }

    #[test]
    fn test_block_jsx_single_line_expanded() {
        let settings = settings_with_blocks();
        let input = "<InfoBox>Content</InfoBox>";
        let expected = "<InfoBox>\n\nContent\n\n</InfoBox>";
        let result = mdx_formatter::formatter::format(input, &settings);
        assert_eq!(result, expected);
    }

    #[test]
    fn test_block_jsx_non_block_not_affected() {
        let settings = settings_with_blocks();
        let input = "<OtherComponent>\nContent\n</OtherComponent>";
        let result = mdx_formatter::formatter::format(input, &settings);
        assert_eq!(result, input);
    }

    #[test]
    fn test_block_jsx_with_attributes() {
        let settings = settings_with_blocks();
        let input = "<InfoBox\n  title=\"Hello\">\nContent\n</InfoBox>";
        let expected = "<InfoBox\n  title=\"Hello\">\n\nContent\n\n</InfoBox>";
        let result = mdx_formatter::formatter::format(input, &settings);
        assert_eq!(result, expected);
    }

    fn settings_with_indent() -> FormatterSettings {
        let mut s = FormatterSettings::default();
        s.indent_jsx_content.enabled = true;
        s.indent_jsx_content.container_components =
            vec!["Container".to_string(), "Wrapper".to_string()];
        s
    }

    #[test]
    fn test_jsx_indent_adds_indentation() {
        let settings = settings_with_indent();
        let input = "<Container>\nContent line 1\nContent line 2\n</Container>";
        let expected = "<Container>\n  Content line 1\n  Content line 2\n</Container>";
        let result = mdx_formatter::formatter::format(input, &settings);
        assert_eq!(result, expected);
    }

    #[test]
    fn test_jsx_indent_already_indented() {
        let settings = settings_with_indent();
        let input = "<Container>\n  Content line 1\n  Content line 2\n</Container>";
        let result = mdx_formatter::formatter::format(input, &settings);
        assert_eq!(result, input, "Already indented content should be unchanged");
    }

    #[test]
    fn test_jsx_indent_non_container_unchanged() {
        let settings = settings_with_indent();
        let input = "<Other>\nContent\n</Other>";
        let result = mdx_formatter::formatter::format(input, &settings);
        assert_eq!(result, input);
    }

    #[test]
    fn test_jsx_indent_skips_empty_lines() {
        let settings = settings_with_indent();
        let input = "<Container>\nContent\n\nMore content\n</Container>";
        let expected = "<Container>\n  Content\n\n  More content\n</Container>";
        let result = mdx_formatter::formatter::format(input, &settings);
        assert_eq!(result, expected);
    }

    #[test]
    fn test_jsx_indent_disabled() {
        let mut settings = FormatterSettings::default();
        settings.indent_jsx_content.enabled = false;
        settings.indent_jsx_content.container_components =
            vec!["Container".to_string()];
        let input = "<Container>\nContent\n</Container>";
        let result = mdx_formatter::formatter::format(input, &settings);
        assert_eq!(result, input, "Disabled indent should not modify content");
    }

    #[test]
    fn test_jsx_format_idempotent() {
        let input = "<Component\n      src=\"image.png\"\n      alt=\"test\" />";
        let settings = FormatterSettings::default();
        let first = mdx_formatter::formatter::format(input, &settings);
        let second = mdx_formatter::formatter::format(&first, &settings);
        assert_eq!(first, second, "JSX formatting should be idempotent");
    }

    #[test]
    fn test_block_jsx_idempotent() {
        let settings = settings_with_blocks();
        let input = "<InfoBox>\nContent\n</InfoBox>";
        let first = mdx_formatter::formatter::format(input, &settings);
        let second = mdx_formatter::formatter::format(&first, &settings);
        assert_eq!(first, second, "Block JSX formatting should be idempotent");
    }

    #[test]
    fn test_jsx_indent_idempotent() {
        let settings = settings_with_indent();
        let input = "<Container>\nContent\n</Container>";
        let first = mdx_formatter::formatter::format(input, &settings);
        let second = mdx_formatter::formatter::format(&first, &settings);
        assert_eq!(first, second, "JSX indent should be idempotent");
    }

    #[test]
    fn test_block_scalar_with_indent_indicator_preserved() {
        // |2- indicator: formatter must keep the block verbatim
        let input = "---\ntitle: Test\nbody: |2-\n  Line one\n  Line two\nsidebar: 1\n---\n\n# Content";
        let result = mdx_formatter::formatter::format(input, &FormatterSettings::default());
        assert_eq!(result, input, "|2- block scalar should be preserved");
    }

    #[test]
    fn test_block_scalar_keep_plus_chomping() {
        // >+ and |+ must be preserved
        let input = "---\ntitle: Test\ndescription: >+\n  Long text here.\nsidebar: 1\n---\n\n# Content";
        let result = mdx_formatter::formatter::format(input, &FormatterSettings::default());
        assert_eq!(result, input, ">+ block scalar should be preserved");
    }

    #[test]
    fn test_block_scalar_as_last_key() {
        // When the block scalar is the last key (no trailing separator blank line)
        let input = "---\ntitle: Test\ndescription: >-\n  Long text here.\n---\n\n# Content";
        let result = mdx_formatter::formatter::format(input, &FormatterSettings::default());
        assert_eq!(result, input, "Block scalar as last key should be preserved");
    }

    #[test]
    fn test_block_scalar_middle_key_no_trailing_blank() {
        // Block scalar followed by a blank separator + another key must NOT
        // bake the blank line into the preserved block text.
        let input = "---\ntitle: Test\ndescription: >-\n  Long text here.\nsidebar: 1\n---\n\n# Content";
        let result = mdx_formatter::formatter::format(input, &FormatterSettings::default());
        assert_eq!(result, input, "Block scalar in middle should not absorb trailing blank");
    }

    #[test]
    fn test_nested_block_scalar_preserved() {
        // Nested block scalars (e.g. meta.description: >-) must be preserved
        // verbatim by the formatter (full-path tracking in
        // extract_block_scalars / emit_yaml_mapping).
        let input = "---\ntitle: Test\nmeta:\n  description: >-\n    Long nested text.\nsidebar: 1\n---\n\n# Content";
        let result = mdx_formatter::formatter::format(input, &FormatterSettings::default());
        assert_eq!(result, input, "Nested block scalar should be preserved verbatim");
        // And the output must still be idempotent.
        let second = mdx_formatter::formatter::format(&result, &FormatterSettings::default());
        assert_eq!(result, second, "Nested block scalar output must be idempotent");
    }

    #[test]
    fn test_deeply_nested_block_scalar_preserved() {
        // A three-level deep block scalar (a.b.c) must be preserved too.
        let input = "---\na:\n  b:\n    c: >-\n      deep text\nkeep: 1\n---\n\n# Content";
        let result = mdx_formatter::formatter::format(input, &FormatterSettings::default());
        assert_eq!(result, input, "Deeply nested block scalar should be preserved");
    }

    #[test]
    fn test_nested_block_scalar_with_literal_indicator() {
        // The `|` (literal) indicator at a nested path must also be preserved.
        let input = "---\nmeta:\n  body: |\n    line one\n    line two\n---\n\n# Content";
        let result = mdx_formatter::formatter::format(input, &FormatterSettings::default());
        assert_eq!(result, input, "Nested literal block scalar should be preserved");
    }

    #[test]
    fn test_top_level_and_nested_block_scalars_coexist() {
        // Top-level and nested block scalars in the same frontmatter must
        // both be preserved.
        let input = "---\ntop: >-\n  top text\nmeta:\n  description: >-\n    nested text\n---\n\n# Content";
        let result = mdx_formatter::formatter::format(input, &FormatterSettings::default());
        assert_eq!(
            result, input,
            "Both top-level and nested block scalars should be preserved"
        );
    }

    #[test]
    fn test_block_scalar_does_not_leak_into_sequence_item_with_same_key() {
        // Regression guard: a top-level block scalar must NOT be re-emitted
        // inside a same-named key of a mapping that lives in a sequence.
        // Previously the emitter reset its path to `""` inside sequences
        // but still looked up `description` in the preserved map, which
        // would overwrite the sequence item's plain scalar with the
        // top-level block text.
        let input =
            "---\ndescription: >-\n  top text\nitems:\n  - description: plain\n---\n\n# Content";
        let result = mdx_formatter::formatter::format(input, &FormatterSettings::default());
        // The sequence item's plain `description: plain` must survive.
        assert!(
            result.contains("- description: plain"),
            "sequence-item description should remain plain; got:\n{}",
            result
        );
        // And the top-level block scalar must still be preserved verbatim.
        assert!(
            result.contains("description: >-\n  top text"),
            "top-level block scalar should be preserved; got:\n{}",
            result
        );
    }

    fn settings_with_tighten(
        mode: mdx_formatter::types::TightenListContinuationsMode,
    ) -> FormatterSettings {
        let mut s = FormatterSettings::default();
        s.list_normalize.tighten_list_continuations = mode;
        s
    }

    fn settings_with_tighten_item_spacing(
        mode: mdx_formatter::types::TightenListItemSpacingMode,
    ) -> FormatterSettings {
        let mut s = FormatterSettings::default();
        s.list_normalize.tighten_list_item_spacing = mode;
        s
    }

    #[test]
    fn tighten_heuristic_collapses_lowercase_continuation() {
        let input = "- first line of the item, which is long and continues\n\n  with more prose.\n";
        let out = mdx_formatter::formatter::format(input, &settings_with_tighten(TightenListContinuationsMode::Heuristic));
        // Blank line between the two paragraphs should be gone.
        assert!(
            !out.contains("continues\n\n  with more prose"),
            "blank gap not collapsed; output:\n{out}"
        );
        assert!(
            out.contains("with more prose."),
            "second paragraph content missing; output:\n{out}"
        );
    }

    #[test]
    fn tighten_heuristic_preserves_capital_start() {
        // "Also, ..." — capital letter — must be left alone by heuristic mode.
        let input = "- first sentence ends here.\n\n  Also, a new idea starts here.\n";
        let out = mdx_formatter::formatter::format(input, &settings_with_tighten(TightenListContinuationsMode::Heuristic));
        assert!(
            out.contains("ends here.\n\n  Also, a new idea"),
            "heuristic should preserve capital-start second paragraph; output:\n{out}"
        );
    }

    #[test]
    fn tighten_heuristic_preserves_item_with_code_fence() {
        // Shape is Mixed (paragraph + code fence), so the rule must not fire,
        // even though the second paragraph starts with lowercase.
        let input = "\
- intro paragraph

  ```js
  const x = 1;
  ```

  continuing lowercase prose that would otherwise trigger.
";
        let out = mdx_formatter::formatter::format(input, &settings_with_tighten(TightenListContinuationsMode::Heuristic));
        // The final paragraph should stay separated from the code fence.
        assert!(
            out.contains("```\n\n  continuing lowercase"),
            "tighten must not collapse across non-paragraph children; output:\n{out}"
        );
    }

    #[test]
    fn tighten_heuristic_preserves_item_with_sublist() {
        // Shape is HasSublist / Mixed, not ParagraphsOnly — do not fire.
        let input = "\
- parent item intro paragraph

  - nested child one
  - nested child two

  continuing lowercase prose that would otherwise trigger.
";
        let out = mdx_formatter::formatter::format(input, &settings_with_tighten(TightenListContinuationsMode::Heuristic));
        assert!(
            out.contains("child two\n\n  continuing lowercase"),
            "tighten must not collapse around a sublist child; output:\n{out}"
        );
    }

    #[test]
    fn tighten_aggressive_collapses_capital_start() {
        let input = "- first sentence ends here.\n\n  Also, a new idea starts here.\n";
        let out = mdx_formatter::formatter::format(input, &settings_with_tighten(TightenListContinuationsMode::Aggressive));
        // Aggressive drops condition (c): the gap collapses even though the
        // second paragraph starts with a capital letter.
        assert!(
            !out.contains("ends here.\n\n  Also,"),
            "aggressive mode should collapse; output:\n{out}"
        );
        assert!(
            out.contains("Also, a new idea"),
            "content must survive; output:\n{out}"
        );
    }

    #[test]
    fn tighten_off_is_no_op() {
        // Identical to the heuristic fixture. With mode=off, the blank gap
        // must survive byte-for-byte.
        let input = "- first line of the item, which is long and continues\n\n  with more prose.\n";
        let out = mdx_formatter::formatter::format(input, &settings_with_tighten(TightenListContinuationsMode::Off));
        assert!(
            out.contains("continues\n\n  with more prose"),
            "off mode must be a no-op; output:\n{out}"
        );
    }

    #[test]
    fn tighten_is_idempotent() {
        let input = "- first line of the item, which is long and continues\n\n  with more prose.\n";
        let once = mdx_formatter::formatter::format(input, &settings_with_tighten(TightenListContinuationsMode::Heuristic));
        let twice = mdx_formatter::formatter::format(&once, &settings_with_tighten(TightenListContinuationsMode::Heuristic));
        assert_eq!(once, twice, "tighten must be idempotent");
    }

    #[test]
    fn tighten_preserves_double_blank_gap() {
        // Two blank lines between paragraphs — not exactly one — must not
        // collapse. After mdx_formatter::formatter::format(), `normalize_empty_lines` will reduce it
        // to one blank line, but the rule itself must not fire on the
        // original AST state, and the collapsed post-normalize result will
        // either be left alone on the next convergence iteration (aggressive
        // would collapse, heuristic won't if start is capital). Here we use
        // capital start so heuristic cannot trigger on the post-normalized
        // version either.
        let input = "- first sentence.\n\n\n  Also follows.\n";
        let out = mdx_formatter::formatter::format(input, &settings_with_tighten(TightenListContinuationsMode::Heuristic));
        // "Also" starts capital → heuristic preserves even after normalize.
        assert!(
            out.contains("first sentence.\n\n  Also follows."),
            "heuristic must not collapse normalized double-gap with capital second para; output:\n{out}"
        );
    }

    #[test]
    fn tighten_real_content_fixture_local_llm_search_spike() {
        // Short snippet from the observed loose AI-authored form in
        // `zudo-text/doc/src/content/docs/architecture/local-llm-search-spike.mdx`
        // (captured in the epic #80 investigation). The second paragraph
        // starts with a backtick (inline code), which is a heuristic trigger.
        let input = "\
- No `candle`, `ort` / ONNX Runtime, `llama.cpp` / `llama-cpp-2`, `tch` / libtorch, or

  `rust-bert` dependency in `tauri-app/Cargo.toml` or `tauri-app/core/Cargo.toml`.
- No `gguf` / `.onnx` / `.safetensors` assets in the repo.
";
        let out = mdx_formatter::formatter::format(input, &FormatterSettings::default());
        // The blank gap between the two continuation lines must be gone.
        assert!(
            !out.contains("libtorch, or\n\n  `rust-bert`"),
            "real-content fixture: blank gap not collapsed; output:\n{out}"
        );
        // Both content halves must still be present.
        assert!(
            out.contains("libtorch, or"),
            "first continuation line missing; output:\n{out}"
        );
        assert!(
            out.contains("`rust-bert` dependency"),
            "second continuation content missing; output:\n{out}"
        );
        // The second list item is untouched.
        assert!(
            out.contains("- No `gguf` / `.onnx` / `.safetensors` assets in the repo."),
            "second list item must be untouched; output:\n{out}"
        );
    }

    #[test]
    fn tighten_default_matches_heuristic() {
        // The FormatterSettings::default() must pick heuristic mode (the
        // locked-in default) — a regression guard for the config layer.
        let input = "- first line of the item, which is long and continues\n\n  with more prose.\n";
        let out_default = mdx_formatter::formatter::format(input, &FormatterSettings::default());
        let out_explicit = mdx_formatter::formatter::format(
            input,
            &settings_with_tighten(mdx_formatter::types::TightenListContinuationsMode::Heuristic),
        );
        assert_eq!(
            out_default, out_explicit,
            "default settings must match explicit heuristic; default=\n{out_default}\nexplicit=\n{out_explicit}"
        );
    }

    #[test]
    fn tighten_item_spacing_heuristic_collapses_paragraphs_only_list() {
        let input = "- first item\n\n- second item\n";
        let out = mdx_formatter::formatter::format(
            input,
            &settings_with_tighten_item_spacing(TightenListItemSpacingMode::Heuristic),
        );
        assert!(
            !out.contains("first item\n\n- second item"),
            "heuristic should collapse inter-item blank gap; output:\n{out}"
        );
        assert!(
            out.contains("- first item\n- second item"),
            "both items must survive; output:\n{out}"
        );
    }

    #[test]
    fn tighten_item_spacing_heuristic_preserves_mixed_shape_list() {
        let input = "\
- first item

- second item
  - nested child

- third item
";
        let out = mdx_formatter::formatter::format(
            input,
            &settings_with_tighten_item_spacing(TightenListItemSpacingMode::Heuristic),
        );
        assert!(
            out.contains("first item\n\n- second item"),
            "heuristic must preserve when any sibling item is non-ParagraphsOnly; output:\n{out}"
        );
        assert!(
            out.contains("nested child\n\n- third item"),
            "heuristic must preserve every inter-item gap in the mixed list; output:\n{out}"
        );
    }

    #[test]
    fn tighten_item_spacing_aggressive_ignores_shape_gate() {
        let input = "\
- first item

- second item
  
  ```js
  const x = 1;
  ```

- third item
";
        let out = mdx_formatter::formatter::format(
            input,
            &settings_with_tighten_item_spacing(TightenListItemSpacingMode::Aggressive),
        );
        assert!(
            !out.contains("first item\n\n- second item"),
            "aggressive should collapse first gap; output:\n{out}"
        );
        assert!(
            !out.contains("```\n\n- third item"),
            "aggressive should collapse second gap; output:\n{out}"
        );
    }

    #[test]
    fn tighten_item_spacing_preserves_double_blank_gap() {
        let input = "- first item\n\n\n- second item\n";
        let out = mdx_formatter::formatter::format(
            input,
            &settings_with_tighten_item_spacing(TightenListItemSpacingMode::Heuristic),
        );
        assert!(
            out.contains("first item\n\n\n- second item"),
            "double blank gap should be preserved by the rule; output:\n{out}"
        );
    }

    #[test]
    fn tighten_item_spacing_recurses_into_nested_sublists() {
        let input = "\
- outer item
  - inner one

  - inner two
";
        let expected = "\
- outer item
  - inner one
  - inner two
";
        let out = mdx_formatter::formatter::format(
            input,
            &settings_with_tighten_item_spacing(TightenListItemSpacingMode::Heuristic),
        );
        assert_eq!(out, expected);
    }

    #[test]
    fn tighten_item_spacing_real_content_three_item_fixture() {
        let input = "\
- No `candle`, `ort` / ONNX Runtime, `llama.cpp` / `llama-cpp-2`, `tch` / libtorch, or
  `rust-bert` dependency in `tauri-app/Cargo.toml` or `tauri-app/core/Cargo.toml`.

- No `gguf` / `.onnx` / `.safetensors` assets in the repo.

- No `tokenizers` / `tantivy` / `lancedb` integration code checked in.
";
        let out = mdx_formatter::formatter::format(input, &FormatterSettings::default());
        assert!(
            !out.contains("Cargo.toml`.\n\n- No `gguf`"),
            "first inter-item gap should collapse; output:\n{out}"
        );
        assert!(
            !out.contains("repo.\n\n- No `tokenizers`"),
            "second inter-item gap should collapse; output:\n{out}"
        );
    }

    #[test]
    fn tighten_item_spacing_default_matches_heuristic() {
        let input = "- first item\n\n- second item\n";
        let out_default = mdx_formatter::formatter::format(input, &FormatterSettings::default());
        let out_explicit = mdx_formatter::formatter::format(
            input,
            &settings_with_tighten_item_spacing(TightenListItemSpacingMode::Heuristic),
        );
        assert_eq!(
            out_default, out_explicit,
            "default settings must match explicit heuristic; default=\n{out_default}\nexplicit=\n{out_explicit}"
        );
    }

    #[test]
    fn recursion_tighten_fires_at_depth_2() {
        // Depth-2 bullet list. The inner item's two paragraph children are
        // separated by a blank line; #82's heuristic tighten rule should
        // collapse that blank — just as it does at depth 0.
        let input = "\
- outer intro
  - inner first line, which is long and continues

    with more prose.
  - inner two
";
        let expected = "\
- outer intro
  - inner first line, which is long and continues
    with more prose.
  - inner two
";
        let out = mdx_formatter::formatter::format(input, &FormatterSettings::default());
        assert_eq!(out, expected);
    }

    #[test]
    fn recursion_recover_code_fires_at_depth_2() {
        // Numbered outer / numbered inner list. The fence sits at col 3 —
        // flush to the outer item's continuation but dedented below the inner
        // item's continuation (col 6), so the parser splits the inner list
        // into two siblings with the fence between. Safe-mode recovery (both
        // sides ordered) re-indents the fence into the inner list.
        let input = "\
1. outer

   1. inner one

   ```js
   const x = 1;
   ```

   2. inner two
";
        let expected = "\
1. outer

   1. inner one

      ```js
      const x = 1;
      ```

   2. inner two
";
        let out = mdx_formatter::formatter::format(input, &FormatterSettings::default());
        assert_eq!(out, expected);
    }

    #[test]
    fn recursion_depth_3_tighten_deepest() {
        // Mixed depth-3 nesting: bullet > numbered > bullet. The deepest item
        // has a blank-gap paragraph continuation; #82 must still fire at the
        // innermost level.
        let input = "\
- outer bullet
  1. middle numbered
     - deepest item one, which continues lowercase

       with more prose.
     - deepest item two
";
        let expected = "\
- outer bullet
  1. middle numbered
     - deepest item one, which continues lowercase
       with more prose.
     - deepest item two
";
        let out = mdx_formatter::formatter::format(input, &FormatterSettings::default());
        assert_eq!(out, expected);
    }

    #[test]
    fn recursion_depth_3_idempotent() {
        // Two passes over a depth-3 mixed structure must produce byte-identical
        // output. The test content mixes a tighten trigger (depth-2) with a
        // recover-code trigger (depth-1) so several rules have to agree on a
        // steady state.
        let input = "\
1. top

   1. middle-a

   ```js
   const x = 1;
   ```

   2. middle-b
      - deepest one, which continues lowercase

        with more prose.
      - deepest two
";
        let settings = FormatterSettings::default();
        let once = mdx_formatter::formatter::format(input, &settings);
        let twice = mdx_formatter::formatter::format(&once, &settings);
        let thrice = mdx_formatter::formatter::format(&twice, &settings);
        assert_eq!(once, twice, "first→second pass flipped:\n--- once\n{once}--- twice\n{twice}");
        assert_eq!(twice, thrice, "second→third pass flipped:\n--- twice\n{twice}--- thrice\n{thrice}");
    }

    #[test]
    fn recursion_detection_traverses_full_tree() {
        // Depth-2 nested bullet list with five items distributed across three
        // depth levels (2 + 2 + 1). `collect_list_item_shapes` must report
        // every item, or downstream rules will silently skip work at depth.
        let input = "\
- l0a
  - l1a
    - l2a
  - l1b
- l0b
";
        let shapes = shapes_for(input);
        assert_eq!(shapes.len(), 5, "expected 5 list items across all depths, got {}: {:?}", shapes.len(), shapes);

        let by_depth = |d: usize| shapes.iter().filter(|s| s.depth == d).count();
        assert_eq!(by_depth(0), 2, "depth-0 count: {:?}", shapes);
        assert_eq!(by_depth(1), 2, "depth-1 count: {:?}", shapes);
        assert_eq!(by_depth(2), 1, "depth-2 count: {:?}", shapes);

        // Continuation indents are absolute (source-derived) and cumulative
        // across markdown's own indentation; no double-counting.
        let d0 = shapes.iter().find(|s| s.depth == 0).unwrap();
        let d1 = shapes.iter().find(|s| s.depth == 1).unwrap();
        let d2 = shapes.iter().find(|s| s.depth == 2).unwrap();
        assert_eq!(d0.continuation_indent, 2);
        assert_eq!(d1.continuation_indent, 4);
        assert_eq!(d2.continuation_indent, 6);

        // `collect_escaped_block_candidates` must also descend into nested
        // lists. Construct a depth-1 gap: an indented fenced code block that
        // sits between two sibling inner items at col 4. The walker has to
        // reach inside the outer item to see the inner list at all.
        let with_nested_gap = "\
- outer
  - inner one

    ```js
    x;
    ```

  - inner two
";
        let cands = candidates_for(with_nested_gap);
        // If the walker never descended past the outer list, no candidates
        // at depth ≥ 1 would be emitted. We may or may not get a candidate
        // here (markdown-rs often absorbs correctly-indented fences as
        // children), but the call must not panic and any candidate surfaced
        // for this shape must carry its correct enclosing depth.
        for c in &cands {
            assert!(c.depth >= 1, "nested candidate depth should be ≥1, got {}", c.depth);
        }
    }

    fn settings_with_all_list_normalize_off() -> FormatterSettings {
        let mut s = FormatterSettings::default();
        s.list_normalize.tighten_list_continuations = TightenListContinuationsMode::Off;
        s.list_normalize.tighten_list_item_spacing = TightenListItemSpacingMode::Off;
        s.list_normalize.recover_escaped_code_in_lists = RecoverEscapedCodeMode::Off;
        s.list_normalize.recover_escaped_tables_in_lists = RecoverEscapedTablesMode::Off;
        s.list_normalize.recover_escaped_paragraphs_in_lists = RecoverEscapedParagraphsMode::Off;
        s
    }

    #[test]
    fn regression_bulleted_continuation_no_blank_injection_defaults() {
        let input = "- **Device Override** — settings can now be tailored per device on top of a\n  shared base settings file. Each install picks a local device name.\n";
        let out = mdx_formatter::formatter::format(input, &FormatterSettings::default());
        assert_eq!(out, input, "bulleted continuation round-trip broke under defaults; output:\n{out}");
    }

    #[test]
    fn regression_bulleted_continuation_no_blank_injection_rules_off() {
        let input = "- **Device Override** — settings can now be tailored per device on top of a\n  shared base settings file. Each install picks a local device name.\n";
        let out = mdx_formatter::formatter::format(input, &settings_with_all_list_normalize_off());
        assert_eq!(out, input, "bulleted continuation round-trip broke with all rules off; output:\n{out}");
    }

    #[test]
    fn regression_ordered_continuation_no_blank_injection_defaults() {
        let input = "1. **Confirm with the user**: Before doing anything, use `AskUserQuestion` to\n   confirm what the user wants to document and verify they intentionally\n   triggered update mode.\n2. **Understand the new info**: Ask the user what they learned or want to\n   document. The topic keyword (if provided) hints at the subject area.\n";
        let out = mdx_formatter::formatter::format(input, &FormatterSettings::default());
        assert_eq!(out, input, "ordered continuation round-trip broke under defaults; output:\n{out}");
    }

    #[test]
    fn regression_ordered_continuation_no_blank_injection_rules_off() {
        let input = "1. **Confirm with the user**: Before doing anything, use `AskUserQuestion` to\n   confirm what the user wants to document and verify they intentionally\n   triggered update mode.\n2. **Understand the new info**: Ask the user what they learned or want to\n   document. The topic keyword (if provided) hints at the subject area.\n";
        let out = mdx_formatter::formatter::format(input, &settings_with_all_list_normalize_off());
        assert_eq!(out, input, "ordered continuation round-trip broke with all rules off; output:\n{out}");
    }

    fn settings_with_all_rules_off() -> FormatterSettings {
        let mut s = FormatterSettings::default();
        s.add_empty_line_between_elements.enabled = false;
        s.format_multi_line_jsx.enabled = false;
        s.format_html_blocks_in_mdx.enabled = false;
        s.expand_single_line_jsx.enabled = false;
        s.indent_jsx_content.enabled = false;
        s.add_empty_lines_in_block_jsx.enabled = false;
        s.format_yaml_frontmatter.enabled = false;
        s.list_normalize.tighten_list_continuations = TightenListContinuationsMode::Off;
        s.list_normalize.tighten_list_item_spacing = TightenListItemSpacingMode::Off;
        s.list_normalize.recover_escaped_code_in_lists = RecoverEscapedCodeMode::Off;
        s.list_normalize.recover_escaped_tables_in_lists = RecoverEscapedTablesMode::Off;
        s.list_normalize.recover_escaped_paragraphs_in_lists = RecoverEscapedParagraphsMode::Off;
        s
    }

    const FENCED_TOP_LEVEL_INPUT: &str = "## Heading\n\nHere is a sample:\n\n```ts\nexport default {\n  site: \"https://example.com\",\n};\n```\n";


    #[test]
    fn regression_fenced_top_level_round_trips_under_defaults() {
        let out = mdx_formatter::formatter::format(FENCED_TOP_LEVEL_INPUT, &FormatterSettings::default());
        assert_eq!(
            out, FENCED_TOP_LEVEL_INPUT,
            "top-level fenced block round-trip broke under defaults; output:\n{out}"
        );
    }

    #[test]
    fn regression_fenced_top_level_round_trips_with_all_rules_off() {
        let out = mdx_formatter::formatter::format(FENCED_TOP_LEVEL_INPUT, &settings_with_all_rules_off());
        assert_eq!(
            out, FENCED_TOP_LEVEL_INPUT,
            "top-level fenced block round-trip broke with all rules off; output:\n{out}"
        );
    }

    const FENCED_NESTED_4BACKTICK_INPUT: &str = "## 複雑な内容（コードブロック、複数段落を含む） → 見出し構造\n\n````markdown\n## 使用方法\n\n### 1. HTMLマークアップ\n\n```html\n<div id=\"app\"></div>\n```\n\n### 2. 初期化\n\n```js\nmyLibrary.init({\n  /* ... */\n});\n```\n````\n";


    #[test]
    fn regression_fenced_nested_4backtick_round_trips_under_defaults() {
        let out = mdx_formatter::formatter::format(FENCED_NESTED_4BACKTICK_INPUT, &FormatterSettings::default());
        assert_eq!(
            out, FENCED_NESTED_4BACKTICK_INPUT,
            "nested 4-backtick fenced block round-trip broke under defaults; output:\n{out}"
        );
        // Explicit path-independence assertions: both inner blocks stay
        // byte-identical to their input shape.
        assert!(
            out.contains("```html\n<div id=\"app\"></div>\n```"),
            "html inner block was mangled; output:\n{out}"
        );
        assert!(
            out.contains("```js\nmyLibrary.init({\n  /* ... */\n});\n```"),
            "js inner block was mangled (path-dependence regression); output:\n{out}"
        );
    }

    #[test]
    fn regression_fenced_nested_4backtick_round_trips_with_all_rules_off() {
        let out = mdx_formatter::formatter::format(FENCED_NESTED_4BACKTICK_INPUT, &settings_with_all_rules_off());
        assert_eq!(
            out, FENCED_NESTED_4BACKTICK_INPUT,
            "nested 4-backtick fenced block round-trip broke with all rules off; output:\n{out}"
        );
    }

    const FENCED_TILDE_INPUT: &str = "~~~ts\nconst x = 1;\n~~~\n";


    #[test]
    fn regression_fenced_tilde_round_trips_under_defaults() {
        let out = mdx_formatter::formatter::format(FENCED_TILDE_INPUT, &FormatterSettings::default());
        assert_eq!(
            out, FENCED_TILDE_INPUT,
            "tilde fenced block round-trip broke under defaults; output:\n{out}"
        );
    }

    #[test]
    fn regression_fenced_tilde_round_trips_with_all_rules_off() {
        let out = mdx_formatter::formatter::format(FENCED_TILDE_INPUT, &settings_with_all_rules_off());
        assert_eq!(
            out, FENCED_TILDE_INPUT,
            "tilde fenced block round-trip broke with all rules off; output:\n{out}"
        );
    }

    #[test]
    fn test_dotted_key_does_not_collide_with_nested_path() {
        // Regression guard: storing the preserved map keyed by a dotted
        // string collapsed two distinct YAML locations — a top-level key
        // literally named `a.b` and a nested `a.b` path — into the same
        // HashMap entry, so the later insert overwrote the earlier one and
        // one block scalar got re-emitted in the wrong place. The fix keys
        // the map by `Vec<String>` so `["a.b"]` and `["a", "b"]` are
        // distinct.
        let input =
            "---\na.b: >-\n  dotted key text\na:\n  b: >-\n    nested path text\n---\n\n# Content";
        let result = mdx_formatter::formatter::format(input, &FormatterSettings::default());
        assert_eq!(
            result, input,
            "dotted top-level key and nested a/b path must be preserved independently"
        );
    }
