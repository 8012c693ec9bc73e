# dsp

Building blocks of a hardware-agnostic synthesizer, with the control logic verified by
Verus.

- `src/` is the verified library:
  - `graph`: the routing graph of processing nodes, and the topological sort that orders
    them so that each node runs after the nodes feeding it (succeeding exactly when such an
    order exists);
  - `bounded`: the fixed-capacity `heapless` containers that the graph uses;
  - `envelope`: the state machine of an ADSR envelope, which says in which segment each
    sample lies and how far along it;
  - `fft`: the ring buffer of the last samples that an FFT analyzer transforms, handed out
    oldest first;
  - `pingpong`: the protocol between the task that fills the two audio buffers and the task
    that sends them;
  - `voice`: the note handling of a monophonic voice;
  - `oscillators`: the waveform shapers.
- `app/` holds the floating-point signal processing around it (biquad filter, envelope
  levels, Hann window and FFT, oscillator modules, `dasp` bus oscillators) and the rounds of
  the streaming tasks.
- `tests/` runs the library on concrete inputs.
