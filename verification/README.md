# echo

An audio editor for 16-bit PCM WAV files, whose sample-level logic is a
library verified with Verus.

- `src/` — the verified library:
  - `wav`: reading a WAV header and samples from the bytes of a file, and
    writing headers and samples back as bytes;
  - `compress`, `inverse`, `stereo`, `fusion`, `resonance`, `edit`,
    `noise`: effects on samples (decimation, reversal, channel cut, mixing,
    echo, muting and repetition, thresholding, moving average, period
    marking for the equalizer);
  - `spectrum`: padding and pairing samples before a Fourier transform;
  - `music_detect`: pitch histograms and the recognition of a piece among
    recordings;
  - `melody`, `training`, `compose`: Markov melodies over note codes, the
    training file format, and joining note recordings into music;
  - `midi`: generating a MIDI file from a model file: the model is parsed
    with `midly`, its events are numbered (events `midly` reads as equal
    alike), a random walk over the numbers
    picks the new track, and the new file is framed and written back
    through `midly`;
  - `convert`: the 16-bit samples of a WAV file (decoded with `hound`), cut
    into frames for the MP3 encoder;
  - `tune`: the target length of a retuned sound;
  - `laws`: properties that relate several functions (a written file reads
    back, a saved table loads back, a piece recognizes itself, ...).
- `tests/` — tests of the library on concrete values.
- `app/` — the command-line program: file input and output, the effects
  computed in floating point (fades, gains, filters, Fourier transforms,
  resampling), and the MP3 encoding.
