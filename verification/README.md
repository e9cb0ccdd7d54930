# audio_nodes

Delay and convolver nodes of a web audio graph, verified with Verus.

`src/` is the library. Each function says in its contract what it returns or changes.

- `binary`: floating-point numbers as bit patterns, and what can be decided of them without
  rounding.
- `arithmetic`: what a caller supplies. Arithmetic that rounds, the mixing of channels and the
  Fourier transform come in through traits of which nothing is assumed; contracts say which
  operations are applied to what, in which order.
- `block`, `audio_buffer`, `audio_node`: samples, and what nodes have in common.
- `delay_node`: a delay made of a writer and a reader that share a line of blocks
  (`delay_line`), with the reading of single frames (`taps`), the channel count of the output
  (`channel_count`), and what holds of the line (`laws`) and of a stream of samples (`stream`).
- `direct_delay_node`: a delay that writes and reads in one step.
- `convolver_node`: convolution with the response of a room, and its normalization;
  `convolver_laws`: what holds of several calls.
- `dom_convolver_node`: the convolver node as scripts see it.

`tests/` runs the library on the numbers of the machine. `app/` is ordinary Rust around the
library: the arithmetic of the machine, sharing between threads, logging, and what is sent to the
audio graph.
