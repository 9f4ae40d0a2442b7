# micapp

Real-time microphone processing for voice chat and streaming, as a verified library with a thin
program around it.

```
mic input → gain → high-pass → EQ → gate → compressor → limiter → output device
```

| Stage | What it does |
|---|---|
| Gain | Input trim in dB |
| High-pass | Removes low rumble (default: 80 Hz) |
| EQ | 4-band parametric equalizer |
| Gate | Cuts background noise during silence |
| Compressor | Evens out volume differences |
| Limiter | Hard ceiling to prevent clipping |

Each stage can be bypassed individually.

## Layout

`src/` is the library, verified with Verus:

- `arith`, `rounding`, `nearest`, `float`, `single`, `double`, `numeric`, `accuracy`: IEEE 754
  arithmetic on bits, proved to round to nearest, and the facts about it that the processors rest
  on;
- `dsp/`: the processors and the voice chain, with what they promise in `laws_limiter`,
  `laws_ramp`, `laws_stages`, `laws_eq`, `laws_shelf`, `laws_blocks` and `laws_runs`;
- `audio/`: device choice and listing, the rings between callbacks, the callbacks, the monitor's
  resampler, and the decisions of the engine;
- `state`, `controls`, `app`, `tray`, `cli`: settings and presets, the window's and the tray's
  decisions, the command line.

`app/` is the program: devices, streams, threads, files, widgets, and the machine's elementary
functions, which the library asks for through the trait `Elementary`.

`tests/` runs the library, arithmetic against the machine's own floating point included.
