# A stack virtual machine and its assembler, verified with Verus

The library (`src/`) holds:

- `opcodes`: the instruction set's byte encoding, with decoding proved to
  invert encoding;
- `encoding`: little-endian integer encoding;
- `vm`: the machine, with a mathematical step function (`next_state`) and an
  executable `step` proved to follow it; `run_program` runs a halting program
  to its final stack; `Fault::message` gives the text a fault stops a run with;
- `assembler` (`parse`, `layout`, `emit`): from source text to program bytes,
  with exact error messages; relaxation of relative jumps is proved to reach a
  layout in which every offset fits; laws of the source language (numerals
  read back, `_` ignored, mnemonic case and spacing irrelevant, lines parsed
  independently) are proved in `parse`;
- `assembled`: what the machine does with the assembler's output (a push
  pushes its literal, a jump or call reaches its label, a pushed address is
  its label's address, a run of pushes and `HALT` ends with the literals on
  the stack);
- `data_structures::fenwick`: a Fenwick tree whose nodes are proved to hold
  the sums of the values they cover;
- `text`: the character handling that the parser needs.

`app/main.rs` is the command-line front end: it reads a `.sub.asm` file and
assembles it, or reads a `.sub.bc` file, prints the bytecode, runs it and
prints the final stack. `tests/` holds the tests.
