# sptorch

Tensors, automatic differentiation, language models and their training, data loading, online
learning, training in a group, and the serial protocol of a small accelerator board.

`src/` is the library. Its functions have contracts that Verus proves. Two functions from outside
are believed to do what they document: `String::push`, and the shuffling of the crate `rand`.

- `tensor`: shapes, layouts, storage formats, pools of tensors that share storage, operators and
  their gradients.
- `autograd`: the graph of operations, the way back through it, and a check of gradients.
- `optim`: descent, moments, clipping and schedules.
- `nn`: layers, attention, decoder models, sampling, constraints, caches and batches.
- `data`: tokenizers, datasets and loaders.
- `live`: parameters that are trained while they serve.
- `distributed`: averaging, the ring and the coordinator.
- `hal`: devices, kernels and topologies.
- `serial`: frames, commands and plans of the board.
- `probe`: what a probe of the board sends, expects and records.
- `bytes`, `text`: little-endian numbers and the text of numbers.

Numbers with a fraction are behind the trait `Number`, and tensors that layers compute with are
behind the trait `Operand`. Neither promises anything of what an operation gives: contracts say
which operations lead to a result, and in which order. Laws that need more of the numbers name it
as a condition.

`app/` binds the library to single precision numbers, serial ports, shared libraries, the network
and the clock. `tests/` runs the library on values.
