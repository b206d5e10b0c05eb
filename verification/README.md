# mlxrs: vision-language models

The part of a vision-language model that decides: which size an image is brought
to, how it is cut into patches and tiles, where its tokens stand in a prompt,
which keys attention may look at, which weights belong to which layer, and what a
configuration is refused for. Each function of the library states what it returns
for every input, and Verus proves that it does.

## Layout

- `src/` is the verified library.
  - `error`, `model_validation`: refusals, and the checks of single numbers.
  - `array`, `buffer`, `text`: arrays in row-major order, buffers whose
    reservation may be declined, and texts.
  - `weights`: the weights of a checkpoint by their names.
  - `vlm::image`, `vlm::resize`: patch grids, and the resampling of RGBA images in
    fixed point.
  - `vlm::video`: the number, the size and the stack of frames.
  - `vlm::prompt`, `vlm::messages`: image tokens, attention masks, chat turns.
  - `vlm::load`: the registry of architectures.
  - `vlm::models::lfm2_vl`: the LFM2-VL model: its configuration, its image
    processor, its tiles, its vision tower, its projector, and the whole.
- `app/` holds what floating point has to compute and what reads documents: filter
  taps, scale factors, layers on numbers, JSON.
- `tests/` runs the library.

Numbers that floating point has to compute enter the library as integers: taps in
fixed point, rounded quotients, bit patterns. What the library does with them is
proved for every value.

A public proof function whose name begins with `law_` states a property that spans
functions.
