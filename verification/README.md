# hush-vani

Speech enhancement with the Hush model (a DeepFilterNet3 derivative), verified with Verus.

The library in `src/` is the model: the weight file format, the network's kernels and stages, the
frame and feature processing around them, the eight-bit and half-precision number formats, and the
command line's rules. Each function states what it computes, and Verus proves it.

All arithmetic is on `F32`: IEEE 754 binary32 numbers in integer arithmetic, correctly rounded. A
result is therefore a definite value, the same to the last bit on every machine, and contracts can
say which. It is much slower than the machine's own floating point.

## Layout

| module | what |
|---|---|
| `rounding`, `float`, `half` | binary32 and binary16 numbers |
| `values` | what numbers stand for, as reals, and how far a rounding goes |
| `simd` | exponential, sigmoid and hyperbolic tangent; processor features |
| `text`, `error`, `weights` | the manifest, its faults, and the weight arena |
| `rows`, `nn` | flat arrays as rows; products, convolutions, the recurrent unit |
| `bank`, `layers`, `encoder`, `decoders`, `model` | the stages of the network |
| `dsp`, `hush` | frames, features, deep filter, overlap-add; the loaded model |
| `pcm`, `cli` | samples in wave files; the command line |
| `int8`, `tools` | eight-bit products; what the development tool uses |
| `causal`, `pipeline`, `limit` | what holds of the whole network, of the whole signal path, and of a limit on the attenuation |
| `ranges` | between which bounds activations, states and outputs stay |
| `accuracy`, `exponential` | how near dot products, exponential, sigmoid and tanh come to the exact values |

`app/` is the program: files, wave input and output, the Fourier transforms, the logarithm and the
other functions of real numbers that have no exact value.

## What is proved of the whole

- Two recordings with the same first hops are enhanced to the same first hops, whatever follows, and
  the beginning of a recording gives the beginning of its output.
- The output has the samples of the input's whole hops of 160, and is one hop late.
- A product with a matrix in panels is the product with the matrix, to the last bit.
- A loaded arena gives back what the weight file stores; no tensor lies outside it.
- Once a stage is built, no access to a tensor it needs can fail. A missing tensor, and a recurrent
  matrix with another shape or fewer numbers than its shape promises, are errors that name it.
- A loaded model can run over any number of frames that fits the machine: a truncated or mismatched
  weight file is an error when it is loaded.
- Without the network in between, analysis and synthesis give the audio back one hop late, as far
  as the transforms undo each other and the window's halves add up.
- With a share `l` of the noisy signal kept, every sample is `audio * l + enhanced * (1 - l)`, one hop
  late, as far as the inverse transform is linear. Only the size of a limit in decibels counts, and
  from a thousand decibels on it suppresses as fully as none.
- The gains of the band mask lie between 0 and 1, the predicted SNR between -15 and 35 dB, the
  recurrent states between -1 and 1, and no filter coefficient is below -1.
- Narrowing to binary16 costs at most 2^-11 of a number's size, a dot product of 256 numbers of at
  most one half at most 1e-4. The computed sigmoid and tanh are less than 2e-7 from the exact ones,
  and within a share of 5e-7 and 4e-7 of them (9e-7 for a sigmoid below -86, up to where its
  exponential is cut off); the exponential is within a share of 2.9e-7.

## Audio

Mono, 16 kHz, samples in `[-1, 1]`. Fewer than 160 samples are too short.
