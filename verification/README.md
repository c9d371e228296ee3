# rwasm_ext

The query-language and header-decoding core of a browser extension that
captures HTTP requests and responses, verified with Verus.

- `src/ql/parser.rs`: parser combinators over `&str` (character classes,
  `either_parser`, `seq_parser_chars`, `prefix_parser`) and the expression
  grammar (number and string literals, identifiers, paths such as
  `request.headers[0]`, parenthesised expressions, `AND`/`OR`,
  `==`/`!=`/`<`/`>`, all nesting to the right). Every parser has a specification (`spec_parse`) and the
  inputs on which it is defined (`defined_on`).
- `src/ql.rs`: the same combinators over `String`, and the `==`/`and` logic
  expressions built from them.
- `src/lib.rs`: decoding of `key: value` header lines, and the captured
  request and response records.
- `src/vm.rs`: the instruction set of the query virtual machine.
- `src/text.rs`: facts about character sequences shared by the above.
- `app/lib.rs`: the wasm-bindgen exports, the storage query and console
  logging.
