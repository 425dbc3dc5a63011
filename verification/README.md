# jsonpath_lib

A JSONPath library whose path-reading parts are verified with Verus.

Layout of `src/`:

- `parser/`: the current path reader, tokenizer and recursive-descent
  parser. `Parser::compile` turns a path into a tree whose value is given
  exactly by `compile_spec`; `visit_node` hands the tree's tokens, and the
  ends of the operands of its comparisons, to a `NodeVisitor` in the order
  of `walk_events`.
- `jsonpath/`: an earlier generation of the same pieces: a reader that also
  knows the path's length, a tokenizer of character vectors, a parser that
  builds a stack of contexts (`run` states what it builds), and the
  comparisons that filters use (`json_filter::cmp`).
- `jsonpath_parser/`, `paths/`: the token types of the later generations,
  the check of a value's text against its token type, and the `paths`
  visitor that hands a parsed tree to a `ParserTokenHandler`.
- `select/`: `JsonValue`, and `Selector`, a `NodeVisitor` that selects
  values with a parsed path; `select_spec` states what `select(json, path)`
  gives, and the `law_` functions state what `$`, `.key`, `..key`, `.*` and
  `[i]` select. Filters compare numbers as floating point and are not
  evaluated: a path that asks for one gives `None`.
- `selector/`, `ref_value/`: error types and index helpers.

Every public function carries a contract; the laws of the library stand as
public proof functions beside the functions they speak of (their names start
with `law_`).
