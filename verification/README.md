# rusty_opus

Verified building blocks of an Opus codec, written in Verus:

- `framing` — the mathematical model of Opus packet framing (TOC byte,
  frame-length codes, padding, self-delimited framing) and the laws that tie
  written packets to what parses back from them.
- `repacketizer` — packet parsing, merging, splitting, padding and
  unpadding, proved against that model.
- `toc` — building and reading TOC bytes, with the round-trip law for every
  configuration an encoder writes.
- `decoder` — how the decoder splits a packet into the frames it decodes,
  with the law that it finds the frames the packet model (and so the
  repacketizer) puts there.
- `transitions` — the decoder's decisions around its coded layers: which
  decoder takes a packet, the redundant CELT frame of SILK and hybrid
  frames, CELT resets and fade-outs across mode changes, and the plans for
  concealing or recovering a lost frame.
- `encoder` — the per-frame decisions of the encoder: accepted
  configurations, coding mode, automatic bandwidth with hysteresis and caps,
  frame sizes per mode, mode-transition resets, discontinuous transmission,
  packet and layer budgets, and the SILK-only packet.
- `control` — encoder rate-control decisions: equivalent bitrate, SILK/CELT
  mode threshold, SILK share of a hybrid bitrate, voice estimate.
- `multistream` — surround channel layouts, channel lookups, per-stream
  bitrate shares, and joining and splitting the streams of a multistream
  packet.
- `parallel` — worker counts and balanced frame ranges of a chunk-parallel
  encode.
- `prof`, `silk::flp` — the inert profiler interface and an integer helper.

`tests/` exercises the library on concrete values.
