# Plasma

A line-based quantum circuit language and a deterministic circuit simulator. Given a
program and a seed, a run is reproducible: all randomness comes from a seeded generator.

## Layout

- `src/` is the verified library: lexer, parser and lowering to a flat list of
  operations; the executor, generic over a quantum backend; the stabilizer engine; gate
  fusion; planning for an accelerator; the moves of amplitudes in a state vector; routing
  on a chain of sites; the choice of an engine. It holds no floating-point numbers.
- `tests/` runs the library, with a small state vector for the executor.
- `app/` is the `plasma` command: reading files, floating-point engines, the CUDA driver,
  printing.

## What is proved

Every function of the library says in its contract what it returns or changes, and when
it fails. What a run, or the reading of a whole source, leaves behind when it stops early
is not described. The larger statements are the public proof functions whose names begin
with `law_`, among them:

- accepted programs are well formed, stay inside their pools, and end if they are
  structured (`wellformed`, `safety`); nothing after the end marker matters (`ending`);
- the tableau of the stabilizer engine describes the state vector: gates, expectation
  values, probabilities and measurements are exact (`vectors`, `meaning`), and a sample
  leaves its values behind (`sampling`);
- what a run records depends on the measurement outcomes only, whatever the backend
  (`outcomes`);
- fusing gates keeps the operations and, on exact backends, the outcome (`fusion_laws`);
- sampling one state gives what repeated execution gives (`device_laws`);
- the moves of amplitudes in a state vector are the gates of the stabilizer engine
  (`agreement`);
- the generator has the full period (`rng`).
