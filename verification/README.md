# Cutty

The decisions of a desktop video editor, verified with Verus.

`src/` is the library. It holds what Cutty computes and decides, each function
with a contract that Verus proves:

- **Media**: probing (`probe`), lossless trims (`trim`), proxies (`proxy`),
  thumbnails (`thumbnail`), filmstrips (`filmstrip`, `crop`), waveforms
  (`peaks`), and the names of cached files (`cache`, `paths`, `tools`).
- **Decoding**: the pull/drain protocol of a decoder and its seeks (`decode`),
  pending audio samples (`audio_source`), which clips sound and where
  (`audio_layout`), and which decoder serves which layer (`compose`).
- **Playback**: the command queue and segment walk (`playback`), the transport
  of the timeline (`transport`), the single-file player (`player`), and the
  frame cache (`framecache`).
- **Export**: encoder choice (`encoders`), the video plan (`render`), ffmpeg's
  arguments (`render_args`), the job as a state machine (`export_job`), and
  the encoder process (`ffmpeg_run`).
- **Text**: glyph coverage, tinting and compositing of text blocks (`text`).
- **Session**: save, load, recovery and recents (`session`), and the messages
  to the frontend (`ipc`).

Times in seconds are IEEE doubles. The library carries them as bit patterns
with their order (`double`); arithmetic on them is done outside and handed in.
Where pixels depend on floating-point results, the rounding itself is stated
and computed in integers (`rounding`).

`tests/` runs the library from outside. `app/` is ordinary Rust around it:
processes, files, decoders, the GPU, the sound card, the window, and the
floating-point arithmetic.

The laws of the library, such as that a video plan tiles the timeline without
drift, that a peak file reads back, or that a text raster is premultiplied, are
the public proof functions named `law_*`.
