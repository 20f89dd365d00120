# audiosilence

The engine of a small digital audio workstation: a synthesiser of sixteen voices
that is played from a MIDI keyboard, tracks, a transport, a plugin in the output,
and recording of the input to disk.

`src/` is the engine, verified with Verus. Numbers with a fraction go through it as
the bit patterns of IEEE binary32 (samples) and binary64 (phase, gain, frequency)
numbers; `binary64` and `number` have the arithmetic on the latter.

| module | what it holds |
| --- | --- |
| `binary64`, `number` | exactly rounded arithmetic, without and with signs |
| `oscillator`, `release` | a voice, and how long its release lasts |
| `audio_track` | a track that plays once |
| `transport`, `playhead` | the position of playback and its place on the timeline |
| `command`, `queue`, `queue::ring` | commands and the queues between threads |
| `engine`, `engine::mixer` | the audio thread: commands, mixing, gating |
| `stereo` | interleaved blocks and their sides |
| `midi` | messages of the keyboard and the choice of a port |
| `panel` | what the buttons of the windows do |
| `recording` | what is kept of the input and when files are written |
| `plugin_loader`, `plugin_loader::host` | making a plugin ready to play |

`app/` is the program around it: devices, windows, threads, files, and the
floating-point operations that the engine is given.
