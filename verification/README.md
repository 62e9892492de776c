# voxxy

Shows the formants of a voice as it speaks: the resonances F1 to F4 that tell one vowel
from another, over time, with lanes for the vowel that is being practised.

## Layout

- `src/` is the library, verified with Verus. No clause in it mentions a machine float: the
  module `float` does the arithmetic of the 32-bit and 64-bit formats in integers, rounded
  as the formats demand, so the contracts say bit for bit what comes out.
  - `number`, `rounding`, `order`, `laws`: what the numbers are, and what holds of them
  - `float`: the executable numbers
  - `audio`, `framer`: from samples to frames
  - `lpc`, `formants`, `analysis`: from a frame to its formants
  - `correlation`, `equations`, `predictor`: what holds of the autocorrelation, what the
    recursion solves, and how well its coefficients predict
  - `tracking`, `plot`: formants in stable slots, over time
  - `phoneme`, `overlay`: the vowels and the lanes behind the plot
  - `channel`: the queues and channels between the threads, and what is believed of them
- `tests/` runs the library, and holds its arithmetic against the machine's.
- `app/` is the program around it: the audio device, the threads, the resampler, the
  eigenvalues, cosines and logarithms that the machine computes, and the window.
