# yajl

A streaming JSON parser, a JSON generator and a tree builder, with their
behaviour stated in Verus contracts and proved.

## Layout

- `src/lexer.rs`: the lexer, specified by `spec_lex` over the bytes of a
  chunk; a token cut off by the end of a chunk is held and completed from the
  next one. Laws: tokens complete in a chunk ignore what follows; what
  precedes a position does not matter; a held token resumes as the whole
  text would lex.
- `src/machine.rs`: the parser's state machine as spec functions
  (`model_step`, `model_run`) over a model of the parser, and the decision
  made for each token.
- `src/parser.rs`: options, errors, states, the state stack, `parse_integer`,
  and the `Callbacks` trait with its model.
- `src/rparser.rs`: the parser itself (`parse`, `complete_parse`,
  `get_error`), proved to run as `model_run` says.
- `src/chunks.rs`: the chunk law, `lemma_parse_in_chunks`: parsing a text
  in two chunks ends in the state that parsing it whole ends in, and an
  error in the first chunk is the error of the whole.
- `src/gen.rs`: the generator, each call specified by the exact bytes it
  writes and the status it returns.
- `src/encode.rs`: escaping, unescaping and UTF-8 checking of strings.
- `src/tree.rs`: JSON values, the tree builder (`Context`) as parser
  callbacks, `yajl_tree_parse` and `yajl_tree_get`.
- `src/ext.rs`: the one call into the `strtod` crate.
- `src/token.rs`: the small token splitter `tokenize_spans`, specified by
  `spec_tokens`.
- `src/status.rs`, `src/bytes.rs`: small types and helpers.
- `app/`: the C interface, the formatting and reading of doubles, and the
  tokens pointed into the text.
