# oracle-core

Symbol-level test attribution for Rust. Not "was this line executed?" but "would
any test fail if this symbol stopped working?"

The library is written in Verus: every function states in its contract what it
returns, and the verifier proves it. What is promised across functions stands as
public proof functions whose names begin with `law_`.

## Layout

- `src/`: the verified library.
  - `symbol`, `inventory`: symbols and tests, and how source is read into them.
  - `syntax`, `lower`: the shapes of source text, and how a tree of `syn` is
    opened into them. `lower` holds nearly all that is trusted rather than
    proved: small functions that hand out the fields of the parser's values.
  - `claims`, `lint`, `report`, `sections`: who speaks for a symbol, whether a test
    can fail, and the static audit.
  - `coverage`, `attribution`, `mutation`: evidence from runs, joined onto symbols
    by definition span.
  - `fastmutate`, `switch`: every mutation compiled in once, behind a run-time
    switch.
  - `cli`: what the command line decides and prints.
  - `text`, `tokens`, `order`: text functions and ordered collections.
- `tests/`: the library at work on concrete values.
- `app/`: the `cargo oracle` program, which walks files, runs other programs and
  prints.
