# voice

A male/female voice classifier: audio is cut into two-second windows, turned
into 80-bin mel spectrograms and classified by a small convolutional network.

- `src/` is the verified library (Verus): label encoding (`label`), the fixed
  input geometry (`config`), framing of audio into windows and FFT frames
  (`framing`), fitting spectrograms to a fixed length, batching and the
  activation-image grid (`layout`), class balancing, epoch planning, early
  stopping and per-class accuracy (`training`), manifest and command-line
  parsing (`manifest`) and the decisions of the audio decoding loop (`decode`).
- `app/` is the program around it: audio decoding, the FFT and mel filter
  bank, the candle network, training and evaluation runs, image and CSV output.
- `tests/` exercises the library on concrete values.
