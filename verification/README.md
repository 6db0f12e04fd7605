# my_lang

An extensible Pratt parser for an expression language, with the bookkeeping that
maps errors back to lines of their files and of the macro expansions they came
through.

## Layout

- `src/text.rs`: UTF-8 facts linking a string's characters to its bytes, the
  Unicode character classes the lexer reads, and scanning of character runs.
- `src/input.rs`: sources (files and macro expansions), line maps, the source
  context that owns them, joining of locations across macro expansions, and
  mapping an error's location to the lines it points at.
- `src/parse.rs`: locations, tokens, errors and the syntax tree.
- `src/lexer.rs`: the lexer, specified by `lex_all`, the items a text yields.
- `src/parser.rs`: the operator table and the Pratt parser, specified by
  `s_expr`, the expression a stream of items parses to, with laws on how
  binding powers group operators.  The table is a scope of names, so new
  operator names with their binding powers can be added at run time; each uses
  one of the built-in rule kinds (prefix, grouping, infix, postfix, call), and
  new kinds of rule cannot be added.
- `src/types.rs`, `src/cffi.rs`: interned handles and the language's types;
  reference-counted handles for sharing data.
- `app/`: the command-line program (reading files, parsing them in parallel,
  printing), the thread-shared file cache and the type interner.

Every function in `src/` is verified with Verus against its contract, except a
few small trusted wrappers, each marked `#[verifier::external_body]` and calling
one standard-library function (the Unicode `char` classes, `String::push`,
`str` range slicing, `Rc::clone`, `Rc::from`, and `std::ptr::eq`/`hash`); their
contracts are believed, not proved.
