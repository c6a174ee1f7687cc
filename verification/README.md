# neolink

Measuring, publishing and controlling a camera's video.

`src/` is the library. Every function in it states what it does in a contract, and
Verus proves all of them but those of four calls into the standard library, which are
taken on trust:

- `paths::with_extension`, for `Path::with_extension`
- `framestats::sort`, for `<[u64]>::sort`
- `ui::quote`, for how `{:?}` shows a text, which `ui::quoted` names
- `<[T]>::copy_from_slice`, in `syphon::publisher`

The modules:

- `crop`: which part of a frame is worth publishing, and remembering that per camera
- `single`: the single-precision arithmetic that crops are worked out in, on bits
- `framestats`: the timing of frames as they arrive, against the camera's own clock
- `syphon`: decoding a stream and publishing it as a Syphon server
- `ui`: what the requests of the control page mean
- `camera`, `paths`, `text`: what the others share

A crop is four single-precision fractions. They are held by their bits, and every
sum, product and comparison is worked out in whole numbers, so that what is proved is
the rounded arithmetic itself. The timing of frames is kept in whole nanoseconds and
microseconds; rates and means are only worked out where they are printed.

`app/` holds what reads, waits, sends and prints: the command lines, the state file,
the web server, and on macOS the decode pipeline and the Syphon server. It reaches
cameras through the traits in `app/camera.rs`.
