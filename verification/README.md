# lightgpu

A toolkit for small CUDA inference engines, written in Verus: what it decides and
computes is stated in contracts and proved.

## Layout

| module | what it is |
| --- | --- |
| `ffi` | the driver's result codes and messages, the rule by which its entry points are resolved, and its loading, once for a process |
| `vm` | modules, launches, device buffers, events: the calls of the driver and what comes of the replies |
| `ops` | the kernel table; the transforms as lists of steps (`fft`), the places of elements (`layout`), and what the steps compute in exact arithmetic (`fourier`, `plane`) |
| `safetensors` | a strict reader for the `.safetensors` container |
| `mmap` | the bytes of a mapped or read file |
| `json` | a small JSON reader; numbers are the nearest binary64, held as integers; what is written is read back (`written`) |
| `build_support` | what a build script prints and runs to compile kernel files |
| `gpuinfo` | the check of the kernel table against a loaded module |
| `text`, `math` | text and powers |

`app/` is the program around the library: loading the driver, mapping files,
running the compiler, and the CPU twins of the kernels, whose arithmetic is
floating point.

## What is trusted

Five functions of the standard library are taken at their documentation:
`String::push`, `char::from_u32`, `std::str::from_utf8` (with the text of its
error), and the `Debug` texts of a string and of a path. Their statements stand in
`text` and `json::parser`.
