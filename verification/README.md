# music_player

A desktop player for one audio file at a time, made for DJs who keep their library in Traktor.
It decodes a track, shows its tags and cover, draws its waveform and a live spectrum, and plays
it through a ten-band equalizer. A track that Traktor has analyzed gets a waveform in band colors
and jumps by bars.

## Layout

- `src/` is the player's logic, verified with Verus: playback and its transport, the equalizer's
  plan, decoding as a sequence of decisions, tags, waveform and spectrum analysis, and what is
  drawn where.
- `tests/` runs the library with the codecs, the tag reader, the resampler and the transforms.
- `app/` is the program around it: the window, the audio device, files, sockets, and whatever
  takes machine floats.

## Numbers

Samples, levels and screen positions are single-precision values. The library holds them by
their bit patterns (`single::Single`) and computes with integers; every operation is proved to
give the exact result, rounded once to the nearest value, ties to even. Logarithms, powers and
sines are taken in `app/`, and the library says what they are taken of and what becomes of them.

## Trust

Three functions call code that Verus does not read, each with a contract that is believed:
`picture::load_from_memory` (the image decoders), `text::exact_text` and `text::lossy_text`
(bytes to text).
