# exprlang

A small expression language: a lexer, a Pratt parser, an unescaper for
string and character literals, environments, and an evaluator, verified
with Verus.

- `src/` is the library. Each module states what its functions compute as
  spec functions over plain values and proves the code against them:
  - `text`, `str_ext`, `literal`: characters, UTF-8 byte offsets, byte
    ranges of strings, lines and columns, integer and float literals.
  - `unescape`: escapes of string, character and byte literals.
  - `lex`: the lexer and its diagnostics.
  - `parse`: the parser, from tokens to expressions.
  - `env`: environments as stacks of frames.
  - `eval`: the evaluator, a machine that does one step at a time and asks
    its caller for the work it leaves out (builtins, showing values as
    text, reading files).
- `app/` is the interpreter around the library: the prompt and the file
  runner, numbers (big integers and floats, with `malachite`), the builtin
  functions, and the loop that runs the evaluator.
- `tests/` runs the library on examples.
