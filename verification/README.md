# scanner

A scanner and an expression parser for a small scripting language, with
their behaviour stated as contracts and proved with Verus.

- `src/tokens.rs`: token kinds, literals and tokens, with their plain views.
- `src/lexical.rs`: the lexical grammar as spec functions (one scanning step
  at a time), and the laws of a scan: it ends with exactly one end-of-input
  token, every token is a piece of the source on the line where it begins,
  token lines never decrease, and the items handed out (errors included) are at
  most one per character plus the end-of-input token, which comes last and only
  once.
- `src/scanner.rs`: the scanner, proved to hand out exactly what the grammar
  says, errors included.
- `src/parser.rs`: the expression grammar as spec functions, the parser proved
  against it, the printing of parsed trees, and the laws that terms group to
  the left and that a parse never runs past the end of input.
- `src/lines.rs`: splitting a token list into one list per line, with its laws.
- `src/run.rs`: what the command-line tool computes from a source text: its
  token descriptions, or its expressions line by line or as one.
- `app/main.rs`: the command-line tool itself (files, prompt, printing).

Number literals keep the text they were written with. `Expr::print` gives
their shortest decimal form (`1.50` prints as `1.5`, `2.0` as `2`), the exact
value as written, never rounded to a 64-bit float. `Expr::print_with` prints
an expression with its number literals, left to right, shown by texts the
caller gives; the command-line tool gives the 64-bit float text of each
literal (made in `app/`, as floating point stays out of the library), so
`12345678901234567890` prints there as `12345678901234567000`.
