# conjure_presets

Real-time audio effect presets (delay, ping-pong, flanger, reversing slicer,
bitcrusher, noise gate, white noise, dynamics, filters and more) for a host
that calls each preset once per planar block of samples.

- `src/` is the Verus-verified library: everything in the presets that
  decides where a sample goes or when something happens, independent of the
  floating-point sample arithmetic.
  - `layout`: planar block positions and block copying.
  - `channels`: per-channel sample lines for up to two channels.
  - `delay_bank`: circular delay lines with a shared write position, with the
    proof that a sample written now is what a tap `d` samples behind reads
    `d` frames later.
  - `slicer`: the reversing slicer, with the proof that while one chunk is
    recorded the previous chunk plays backwards; a chunk length lowered below
    the position reached closes the current chunk at once.
  - `bitcrush`: quantization level count and the sample-and-hold.
  - `noise`: the white-noise generator's linear congruential state sequence,
    continuous across blocks.
  - `gate`: the noise gate's hold counter, with the proof that after the level
    falls below the threshold it holds for exactly the hold time and then
    releases.
  - `phaser`: the cap on the number of allpass stages.
- `app/` holds the presets themselves: their host entry points, parameter
  metadata and floating-point processing, calling the library for the parts
  above. `app/sdk_presets.rs` holds the presets written against the
  conjuredsp SDK.
- `tests/` runs the library on concrete blocks.
