# music_sandbox

A verified core for a small algorithmic-music sandbox.

- `src/` is the library, verified with Verus:
  - `unit_draw`: the exact comparison of a span (in ticks of 2^-54 s) against a
    uniform draw in `[0, 1)` given by its IEEE-754 bit pattern;
  - `random`: the seeded ChaCha generator of `rand` and the draws taken from it;
  - `pattern`: pattern trees, their mathematical model, assembly into scheduled
    notes, and the laws of assembly;
  - `generate`: the random pattern generator and the laws of what it builds;
  - `playground`: the seeded playground pattern, assembled;
  - `voicing`, `arrangement`: how tagged phrase notes are voiced and arranged
    by the phrase watcher and the input playground;
  - `playback`: the looping position of live playback.
- `app/` is the program around it: audio output, wave files, the rendering GUI
  and the phrase files, with the floating-point sound parameters.
- `tests/` runs the library on concrete values.
