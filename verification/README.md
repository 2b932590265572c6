# gguf_infer

Inference for GGUF models (Qwen2, Qwen2.5, LLaMA, Mistral) on the CPU or on the GPU.
Weights stay quantized in memory and are decoded block by block while they are
multiplied.

The library under `src/` is verified with Verus: what each function returns or changes is
stated in its contract and proved, and so is what a generation puts out, in which order.
`app/` is the command line around it.

## The library

| Modules | What they hold |
|---------|----------------|
| `gguf` | the file format |
| `quant`, `ieee` | weight formats and floating-point patterns |
| `tokenizer`, `pieces`, `byte_table`, `text`, `utf8` | byte-level BPE |
| `chat_template`, `cli` | prompt formats, arguments |
| `layout`, `loading`, `model`, `generation`, `run` | from a file to generated text |
| `arith`, `math`, `rope`, `rmsnorm`, `attention`, `mlp`, `transformer`, `kv_cache` | the forward pass |
| `projection`, `gpu_backend` | matrix products on the CPU and the GPU |
| `sampler`, `ranking` | choosing the next token |
| `reproducible`, `repeatable` | that sampling, and with it a whole generation, can be repeated |
| `tensor` | shapes, strides and dense tensors |

Floating-point arithmetic is handed in. Code that only computes with numbers is generic
over their type and takes the operations as a `Numbers` value; its contracts say which
operations are carried out, on what and in which order, from the value of a weight on. Code
that compares or converts floats works on their IEEE 754 bit patterns.

Proof functions named `law_...` state what holds across functions, for instance that
decoding undoes encoding, that the product with a quantized matrix is that with its expanded
weights, and that a seed makes a whole generation reproducible. That last law speaks of runs
made of rounds: `Model::step` does one round, and `Model::generate` a run from the prompt to
its end.

## Running

```
gguf-infer --model model.gguf --prompt "Hello, how are you"
```
