# piet

A toolchain for the esoteric language Piet, verified with Verus.

Programs are written at three levels:

- **stack programs** (`.stk`): named blocks of Piet stack-machine commands
  with jumps between blocks;
- **mid-level programs**: stack programs with named variables, local labels
  and libraries of code, lowered to stack programs;
- **advanced programs**: mid-level statements plus a heap of growable lists,
  run by an interpreter.

A stack program can be optimized with a peephole optimizer and drawn as a
Piet image, each block a strip of coloured codels.

## Layout

- `src/` — the verified library.
  - `integer.rs`: arbitrary-precision integers (arithmetic by the `num` crate);
  - `piet_interpreter.rs`: the commands of the stack machine and their effect;
  - `piet_color.rs`: the twenty Piet colours, their symbols and RGB values;
  - `piet_stack/`: stack programs — reading, writing, running, the peephole
    optimizer, and drawing as an image;
  - `optimize_stk.rs`: the search for short command sequences that push a
    number;
  - `mid_smpl/`: mid-level programs — reading, writing, lowering;
  - `advc/`: advanced programs and their interpreter;
  - `label_map.rs`, `text.rs`, `io.rs`, `util.rs`: supporting data structures.
- `tests/` — tests of the library.
- `app/` — the command-line front end (file and terminal input and output).

Public functions state their behaviour in their contracts, with these
limits: the search in `optimize_stk.rs` runs for a given number of steps
and then builds the sequence directly (`stack_ops`), so a sequence always
comes back, but its contract does not say that a searched sequence is the
cheapest; drawing (`to_png_draw`) states the image's width, its entry
code, each block's entry code in the grid it is compacted from, the
compaction, and when an image is owed, but not every cell; `to_png`
states the width and the entry code of a returned image, and no case in
which an image is owed. The laws that relate several functions
(reading back what is written, optimizing keeps what a block does and a
second optimizing changes nothing, colours round trip, appending to a
list) are proof functions in `src/`.
