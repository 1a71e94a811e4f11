# ffmpeg_rs

Audio resampling, channel mixing and sample format conversion, and picture scaling and pixel
format conversion, written in Verus. Every public function of `src/` has a contract that Verus proves.

## Audio

- `swr`, `calls`, `convert`, `frames`, `timing`: the resampling context and its calls.
- `stream`, `resample`, `lowpass`: resampling with a polyphase filter bank, and its filters.
- `rematrix`, `mixtable`, `channel_layout`: mixing between channel layouts.
- `audioconvert`, `samplefmt`, `audio`: sample formats and buffers.
- `order`, `pacing`: what holds over several calls.
- `limits`: how a limit changes a mix.

## Pictures

- `scalecontext`, `scale`, `device`: the scaling context and its conversions.
- `scaleplan`, `scalefilter`, `sampler`: scaling with tables of coefficients and by sampling.
- `pixels`: pixel formats and frames.
- `keeping`, `depends`: what scaling keeps of a picture, and what its outcome depends on.

## Numbers

`float` is IEEE 754 arithmetic on bit patterns, `arith` and `mathematics` are integer arithmetic.
The library uses no floating-point hardware. Where a filter or a kernel wants sines, roots or
exponentials, it tells the arguments and takes the values; `app/` supplies them.

## Surroundings

`app/` holds what the library leaves to others: elementary functions and the Vulkan device. The
device runs `extras/scale.comp`, compiled to SPIR-V; the file is `scale.spv`, or what
`SCALE_SHADER` names.
