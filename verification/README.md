# bitnet

A small BitNet b1.58 language model: training, sampling and checkpoints, with the
logic verified by Verus.

- `src/` is the verified library.
  - `float`, `tensor`, `ops`, `bitlinear`: element arithmetic, row-major tensors,
    the operations on them with their gradients, and the two quantisers.
  - `autograd`, `attention`, `ffn`, `block`, `model`, `layout`: the tape, the layers
    recorded on it, the decoder-only transformer and the one order of its weights.
  - `device`, `step`, `gpu`: the same layers over any tensor backend, a training step
    on a device, and the launch plans of its kernels.
  - `optim`, `train`, `trainer`, `config`, `regression`: AdamW, gradients of windows and
    batches, whole runs, and what they are configured with.
  - `data`, `bpe`: the character vocabulary, training windows, the generator of
    pseudo-random numbers, and the byte-pair tokeniser.
  - `inference`, `inference_kv`, `samples`: sampling, with and without cached keys and
    values.
  - `identities`: what softmax, normalisation and rotation keep.
  - `agreement`, `sweep`, `gradients`, `backward`: proofs that the cached pass gives what
    the whole one gives in arithmetic without rounding, that no row looks ahead, and that the
    backward passes written out by hand agree with the tape where the order of a sum does
    not matter. Each law names the identities it needs of the arithmetic.
  - `codec`, `export`: the checkpoint format.
  - `cli`: arguments and settings.
- `tests/` runs the library on a float type of its own.
- `app/` is the program around it: files, threads, printing and the graphics processor.

The library never touches a floating-point number. A caller implements `float::Float`
for its own 32-bit float; nothing is assumed of its methods. Contracts say which
operations are applied to which arguments and in which order, and hold for every float
type whose methods are functions of their arguments.
