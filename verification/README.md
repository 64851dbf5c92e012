# parser_gen

An LR(0) / LR(1) / LALR(1) / LL(1) parser generator core, verified with Verus.

The library reads a grammar (from its configuration form, or written one production
`lhs -> rhs1 rhs2 ...` a line), numbers its terms, non-terms and productions, and builds:

- the LR(0) automaton (`lr0`), its LALR(1) lookaheads (`lalr1`), the canonical LR(1)
  automaton (`lr1`), the parsing table and the yacc-style solving of its conflicts by
  priority and associativity (`table`, `pipeline`);
- the LL(1) first, follow and predict sets and table (`ll1`);
- the text and dot drawings of all of these (`show_ll`, `show_lr`, `playground`);
- a table-driven lexer and LR parser driver that run generated tables (`lexer`, `driver`);
- the encoded action table, the type list and the reduce actions (Rust, C++, Java) that
  generated parsers embed (`gen_fmt`);
- the reader of the small `Lhs -> rhs ...` grammars whose non-terms start with an uppercase
  letter (`simple_grammar`).

The public functions in `src/` carry contracts proved by Verus. `src/laws.rs` holds the
properties that relate several functions. The calls into outside crates (`smallvec`,
`hashbrown`, `indexmap`) sit behind small trusted wrappers in `src/collections.rs`, and three
std calls (`String::push`, slicing, `char::is_uppercase`) behind wrappers of their own; all
other functions are verified.

`app/main.rs` is the `simple_grammar` command: it reads a grammar file and writes the drawing
of its automaton (`-g lr0|lr1|lalr1`) or its LL(1) sets (`-g ll1`) to the output file.
