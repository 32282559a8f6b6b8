# rfofs

Scheduling and control core of a real-time FOF granular synthesizer, written in
Verus. A FOF is a short grain of sound: a sine with an attack, an exponential
decay and a fade-out.

- `src/` is the library. Everything in it is verified.
  - `wheel`, `schedule`, `queue`, `ring`: a timing wheel, the schedule of grains
    built on it, and the lock-free rings that feed it from other threads.
  - `delivery`, `order`: what draining a schedule delivers, in what order.
  - `fof`, `runs`, `pool`, `engine`: the life of a grain, what it does in one
    block, the pool of sounding grains, and the engine that plans each block.
  - `killing`: what a kill request changes, and what it leaves alone.
  - `pan`: panning modes, their notation and what each channel is fed with.
  - `clock`, `cli`, `text`: clock modes, command-line arguments, reading text.
  - `shm`, `setup`, `client`: the control plane through which other processes
    drive a running server.
  - `handover`: what the rings of the control plane keep when their two sides
    run at the same time.
  - `offline`, `playback`: rendering to a file, and what becomes of a grain in
    it.
  - `probe`, `fastsin`: the level probe, and positions in sine tables.
- `app/` is the program around it: JACK, sound files, shared memory, the C
  interface, and all floating-point signal processing.
- `tests/` run the library.

The library carries real-valued parameters as the bits of an `f32` and does not
compute with them. What they mean in samples, such as the length of a decay, is
handed to it by its caller.

Functions whose contract rests on another crate (`rtrb`, `slab`) are wrapped in
`src/ring.rs` and `src/pool.rs`; each wrapper says what it takes for granted.
