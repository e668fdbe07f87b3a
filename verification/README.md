# kb-mcp

The rules of a search server over a knowledge base of Markdown files, written and
proved in Verus: how a query becomes a full-text expression, which candidates a
search keeps and how two rankings are fused, how a connection graph is walked under
a budget, what an evaluation counts and reports, and which configuration files are
trusted with what.

- `src/` is the library. Every function in it has a contract that Verus checks. The
  few calls into other crates and the parts of std that vstd does not describe
  stand behind declarations whose doc comments say what is taken on trust.
- `tests/` runs the library on concrete values, partly over a small index in
  memory.
- `app/` is what surrounds the library: the SQLite index, the files, the
  environment and floating point arithmetic.

Numbers with a fraction are held by their IEEE 754 bit patterns (`float`). The
library compares them; it never computes with them.
