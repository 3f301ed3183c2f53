# query_parser

Parser, linter and TINQL emitter for boolean search queries, verified with Verus.

- `src/` is the verified library. Each stage is specified by spec functions over
  sequences of characters, and each executable function is proved equal to its spec:
  - `text.rs`: UTF-8/UTF-16 lengths, byte offsets of characters, decimal rendering.
  - `lexer.rs`: tokens with byte spans (`lex_spec`).
  - `parser.rs`: the recursive-descent grammar with error recovery (`parse_spec`).
  - `lint.rs`: the rules on a parsed tree (`lint_node`).
  - `tinql.rs`: emission (`emit_spec`) and the pipeline behind every public function
    (`analysis_diags`, `analysis_tinql`).
  - `format.rs`: canonical query text (`format_spec`).
  - `diagnostics.rs`: positions (line, UTF-16 column, byte offset), ranges, and the
    stable ordering of diagnostics.
  - `lib.rs`: the public entry points and the laws that tie them together
    (`law_valid_iff_transpiles`, `law_format_iff_valid`, `law_diagnostics_ordered`,
    `law_larger_limits_keep_valid`).
  - Further laws stand beside the functions they are about: token and node spans
    (`law_token_spans`, `law_tree_spans`), lexer diagnostic ranges (`law_lex_diagnostic_ranges`),
    term values written by `format` reading back (`law_term_reads_back`), positions and ranges (`law_position_at_boundary`,
    `law_range_in_order`), sorting (`law_sort_stable`, `law_sort_keeps_items`,
    `law_sort_idempotent`), the lint limits (`law_fuzzy_limit`, `law_slop_limit`) and
    emission (`law_negation_only_and`, `law_boost_ignored`).
- Boost factors (`^N`) are kept as the text that was typed, not as floating-point numbers,
  so `format` writes them back unchanged (`apple^2.0` stays `apple^2.0`, `^.5` stays `^.5`);
  the JSON of the tree in `app/` turns them into numbers.
- `app/` is the Node.js binding: the napi exports, the JSON of the syntax tree, and
  JavaScript-facing copies of the result types.
- `tests/` holds the scenario tests.
