# image_processor

A command-line image processor that runs plugins over the RGBA pixels of a PNG
image, with the pixel logic of its two plugins (mirror and blur) and the checks
that guard a plugin call written in Verus and proved against their contracts.

## Layout

- `src/pixels.rs`: the RGBA buffer layout (pixel offsets, buffer length) and
  the arithmetic facts about it.
- `src/mirror.rs`: left-right and top-bottom mirroring, specified as exact
  functions of the input buffer, with the laws that each mirror undoes itself,
  that the two commute, and that applying the same parameters twice restores
  the image.
- `src/blur.rs`: the integer side of the blur: when a blur does nothing, the
  window around a pixel, and the exact list of neighbours (offsets and squared
  distances) that a pixel averages over.
- `src/loader.rs`: the command-line arguments, the file checks, and the buffer
  length check made before a plugin runs.
- `app/`: the program itself: argument parsing, file and image I/O, dynamic
  loading of plugin libraries, the plugins' C entry points and JSON parameters,
  and the floating-point weighting of the blur.
- `tests/`: tests of the library.

## Parameters

Mirror: `{"horizontal": true, "vertical": false}`.
Blur: `{"radius": 2, "iterations": 2}`; missing fields take the defaults
(no mirror; radius 0 and one iteration).
