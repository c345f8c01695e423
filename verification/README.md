# micspoofing

Audio sources that stand in for the microphone of a capture client.

- `src/` is the library, verified with Verus. It makes no calls into the system: wherever one is
  needed, a function returns a value that names the call, and takes what the call gave back.
  - `decoder_start`, `decoder_loop`, `decoder_run`, `decoder`, `pcm`: from an audio file to
    samples in a pipe.
  - `adapter`, `phase`, `read_samples`: from the pipe to the frames that a client reads.
  - `streaming`, `custom_source`, `default_path`, `factory`, `pending`, `create`: which source a
    client gets.
  - `sample`, `rounding`, `bytes`, `text`, `error`, `media_ndk`, `stream`, `logging`, `fuzz`, `wav`:
    what these are built on and tested with.
- `app/` holds the C interface and makes the calls: media library, pipes, threads, Java virtual
  machine, package manager, log and fuzz target.
- `tests/` runs the library on concrete values.

Samples are IEEE 754 binary32 numbers. The library holds them as their bits and computes with
integers, so that rounding is part of what is proved.
