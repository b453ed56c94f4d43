# near_python

A tiny Python-subset runtime for NEAR OutLayer scripts. The library in `src/`
is written in Verus: every function there carries a contract that Verus proves.

- `text` — characters of strings, trimming, prefix and suffix tests, integer and
  floating-point numeral syntax, decimal rendering.
- `scan` — the depth-aware scanners the parser is built on: operator search
  outside strings and brackets, argument splitting, matching brackets, colons.
- `ast`, `grammar` — the syntax tree and its mathematical model; `grammar`
  states, as spec functions, what every script text parses to.
- `parser`, `parser_postfix`, `parser_atom`, `parser_block` — the line-based
  parser, proved to compute exactly what `grammar` states.
- `json` — JSON documents as the library reads them.
- `policy` — the three-tier policy that guards `near.call`, `near.transfer` and
  `near.send_tx`, with its laws (rate limit, tier rules, whitelist rules).
- `builtins` — the integer and text computations behind `range`, list
  indexing, `pop`, `insert` and the string methods.
- `flow` — the control flow of statements as a step function: `if`, `while`,
  `for`, `break`, `continue`, `return` and `try`/`except` (the `except` body
  runs when an error is raised inside the `try` body).
- `storage` — the in-memory storage of `near.storage.put` and `get`.
- `script` — choosing the script from the runtime's input.

`app/` holds the executable: reading the script, the evaluator (its values hold
floating-point numbers and hash maps), which follows the steps that `flow`
gives, and the host calls through the `near:rpc/api` WIT interface.
