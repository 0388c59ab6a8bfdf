# amrwb

An AMR-WB speech codec, encoder and decoder, in saturating fixed-point
arithmetic, with every stage proved against a functional specification.

- `fixed_point`, `math`, `noise`, `order`: the basic operators on mathematical
  integers, and what is built on them.
- `enc`: the encoder, from 16 kHz samples to a payload, with a trace of what each
  stage computed (`enc::trace`).
- `params`, `gain`, `excitation`, `enhance`, `speech`, `output`, `decoder`: the
  decoder, from a payload to 16 kHz samples, with concealment (`conceal`) and
  comfort noise (`dtx`).
- `readback`: what the encoder writes, the decoder reads.

The trained codebooks, the interpolation filter to 16 kHz and the responses of
the phase dispersion are data that the caller hands in (`Codebooks`,
`DecoderTables`).
