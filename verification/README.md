# bonsai

A runtime for ternary language models of the qwen35 family, verified with Verus.

`src/` is the library. It reads and rewrites GGUF containers, splits text into tokens and joins
them again, samples, speaks the chat protocol over HTTP, and plans and computes the layers of the
model, of its drafter and of a GPU pass. Real numbers are bit patterns: sums, products, quotients
and square roots are rounded exactly as IEEE 754 says, and every function states its result in a
contract. Powers of e, logarithms, sines and cosines are arguments.

`app/` is the program around it: files, sockets, threads, the clock, the environment, and the
functions of real numbers that the library takes from outside. Its arithmetic is the library's, so
it is slow and says exactly what it computes.

`tests/` runs the library on given values.

| modules | what they hold |
| --- | --- |
| `gguf`, `gguf_write`, `gguf_retag`, `repack`, `limits`, `inspect` | containers |
| `half`, `single`, `double`, `root`, `number`, `shortest`, `binary`, `bignat` | numbers |
| `tokenizer`, `byte_level`, `scan`, `lookup`, `utf8`, `text`, `find` | text |
| `json`, `http`, `chat`, `prompt`, `tools`, `reasoning`, `completion`, `server`, `engine`, `cli` | the server |
| `kernels`, `dots`, `norms`, `rope`, `gdn`, `layers`, `forward`, `attention`, `attn_layer`, `kvquant`, `planar`, `codebook`, `prefill`, `config` | the model |
| `sampler`, `sampling` | drawing tokens |
| `dspark`, `draft`, `sheets`, `encoder`, `manifest`, `speculative` | the drafter |
| `gpu`, `gdev`, `gdev_batch`, `gdev_open`, `opencl` | devices |
