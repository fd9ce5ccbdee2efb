# utrace

Builds a control-flow graph of basic blocks, with a data-dependence graph of
instruction and phi nodes, from a micro-trace of committed RISC-V instructions,
and decodes the bit fields of instruction words. The library under `src/` is
written in Verus and proved against its contracts; `app/` is the program that
reads `cfg.toml` and the trace file and prints the graph.

- `src/instruction.rs`, `src/instruction/accessor.rs`, `src/instruction/flag.rs`:
  instructions, their property flags and the fields of their encodings.
- `src/il.rs`, `src/il/block.rs`, `src/il/node.rs`: the graph under
  construction (`CFG`), its blocks and nodes; `src/il/model.rs` holds its
  abstract model, the step that one trace message makes, and the laws of that step.
- `src/graph.rs`: a directed graph with densely numbered vertices.
- `src/streamer.rs`, `src/streamer/proto.rs`: the messages of the trace and the
  splitting of the trace bytes into length-prefixed frames.
- `src/loader.rs`: the graph of a whole sequence of messages.
