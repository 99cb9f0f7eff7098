# eyebrowse

A lean model runtime for WebGPU whose decisions are proved with [Verus](https://github.com/verus-lang/verus).
It runs Qwen3, Mistral/Llama and Gemma 4 text models from safetensors or GGUF files
(Q8_0, Q4_K, Q6_K, F16 and F32 tensors).

## Layout

| Path | What it holds |
|---|---|
| `src/bytes.rs`, `src/text.rs`, `src/table.rs`, `src/shape.rs`, `src/float.rs` | Words, strings, tables, shapes, and IEEE 754 arithmetic on bit patterns. |
| `src/json.rs`, `src/config.rs` | Reading a Hugging Face `config.json` into a normalised configuration. |
| `src/gguf.rs`, `src/dequant.rs` | The GGUF container and its quantised blocks. |
| `src/source.rs` | The `WeightSource` trait and safetensors archives, single or sharded. |
| `src/tokenizer.rs` | Encoding and decoding with the `tokenizers` crate, for tokenizers on which it cannot panic. |
| `src/gpu/` | The account of a device's buffers, tensors, pipelines, recorded work, and what work leaves in buffers. |
| `src/kernels.rs` | The compute kernels' dispatch wrappers. |
| `src/nn/` | Linear layers, norms, embeddings, rotary embeddings, caches, attention. |
| `src/models/` | Decoder blocks, loaders, and the forward step. |
| `src/generation.rs` | Greedy generation as a state machine. |
| `app/` | The host: wgpu, shaders, files, and the numbers that need floating point. |
| `tests/` | Tests; `tests/gpu.rs` runs recorded work on a host without a GPU. |

## How contracts speak of GPU memory

A `Device` keeps account of numbered buffers: their sizes, which are in use, which wait for reuse,
what the host has to write and which work it has to run. What a buffer holds is a term over the
data of the host (`gpu::memory::Term`): which kernel ran, over how many workgroups, on which
contents. Contracts say which term a result is, that everything else stays as it was, and that what
was borrowed is given back. The invariant of a device says that a host that performs each batch in
order, writes first, ends up with these contents.

Real numbers are carried as the bits of their IEEE codes; the few that need transcendental functions
(rotary tables, scales) are computed by the host and handed in.
