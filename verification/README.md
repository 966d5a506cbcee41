# playground

Small Rust programs, with their logic verified by Verus.

`src/` is the verified library:

- `chip8` — a CHIP-8 interpreter for a subset of the instruction set;
  every instruction is specified over a model of the machine state, and
  `run` executes a halting program to the state in which `run_spec`
  halts.
- `pratt`, `pratt_streamlined`, `shunting_yard` — three operator-precedence
  parsers that print S-expressions; each is specified by a functional
  parse over its tokens, with laws on precedence, associativity,
  parentheses and whitespace. `agreement` proves where the three agree.
- `ok_stack`, `persistent_list` — a boxed linked stack and a persistent
  reference-counted list, specified over sequences; both free their
  nodes one at a time when dropped.
- `post` — a blog post workflow (draft, review, two approvals, published).
- `web` — which page a request line gets and the bytes of the HTTP
  response.
- `text` — character classes and string building shared by the parsers.

`app/` holds the programs around it: the post and animal demos, a
thread-pool web server, an actix-web service and a background query that
streams data frames as JSON.
