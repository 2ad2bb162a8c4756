# goboscript (UY-script checking layer), verified

The compile-time layer of UY-script, an experimental goboscript dialect with
primitive static types, ownership (moves) and call-scoped borrows, written in
Verus and proved against its contracts.

Layout:

- `src/ast.rs`, `src/diagnostic.rs`, `src/names.rs`: the syntax tree the checkers
  read, diagnostics, and the name-keyed tables and sets they use.
- `src/lexer/`: the token adaptor that turns `&T name` / `&mut T name`
  parameters and `&name` / `&mut name` borrows into encoded name tokens.
- `src/lua_macro.rs`: `%lua { ... }` blocks: scanning and masking them, setting
  up the sandbox of an `mlua` state (the writes that clear the hidden globals and
  register `uy.emit` are stated), counting the instruction budget, collecting
  what a block emits, and turning the outcome of each block's run into
  expansions and diagnostics.
- `src/lua_table.rs`: the Lua table writes the sandbox makes, each given back
  as a record of what was written.
- `src/visitor/type_check.rs`: goboscript's static type checker.
- `src/visitor/uy_type_check.rs`: UY-script's type and move checker, and the
  erasure of primitive annotations.
- `src/visitor/uy_borrow_check.rs`: the borrow checker and the erasure of the
  reference encoding.
- `app/lib.rs`: the `logos` scanner, the token iterator, the Lua runner (a fresh
  sandboxed `mlua` state whose instruction hook calls the library's budget step;
  installing that hook is the one step of the run the library leaves to this
  layer), and entry points that take the compiler driver's hash maps.

Each checker's contract is an exact specification: a spec function describes
the state (moved values, open borrow scopes, diagnostics) after each expression
and statement, and the public entry points state the diagnostics of every
sprite in terms of it. Laws of the language (type rules, move and borrow rules,
borrows lasting for one call, checking only adding diagnostics, erasure keeping
the shape of bodies, the lexer's encodings decoding back and every other token
passing through it unchanged, masking keeping source positions, expansions
following the source, a block's closing brace balancing the braces before it)
are public proof functions next to what they are about.
