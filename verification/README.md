# lib: a verified adaptive bitwise compressor

A context-mixing bit predictor driving a binary arithmetic coder, written
in Verus with the behaviour of every function stated and proved.

- `src/squash.rs`: the logistic `squash` and its table inverse `stretch`.
- `src/state_table.rs`: the bit-history state machine.
- `src/state_map.rs`: adaptive probabilities per context.
- `src/apm.rs`: adaptive probability maps that refine a probability.
- `src/predictor.rs`: the predictor that chains them.
- `src/buffered.rs`: byte sources and sinks held in memory.
- `src/coder.rs`: the arithmetic encoder and decoder.
- `src/compress.rs`: compression of a whole byte sequence.
- `src/roundtrip.rs`: the proof that decoding the code gives the data back.
- `app/main.rs`: the command line (`c input output`, `d input output`).
