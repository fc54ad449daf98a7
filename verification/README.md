# basinski

Rescues media files from their own disintegration. Identifies audio and video
forensically even when headers are gone, regrows the missing structure of
head-truncated MP4s from the surviving index, re-heads Matroska/WebM whose front was
lost, transplants an index onto a file that has none, and divines the codec parameters
of a headless H.264 stream.

`src/` is a library in Verus: every function states what it returns in `requires` and
`ensures`, and Verus proves it.

| module | what it holds |
| --- | --- |
| `bytes`, `bits`, `text`, `fourcc` | big-endian numbers, bit streams and Exp-Golomb codes, texts, box names |
| `forensics` | what a file is, with or without headers |
| `mp4`, `rebuilt` | reading an index, diagnosing a cut, rebuilding the file image; what a rebuilt image promises |
| `h264`, `aac` | parameter sets and their surgery, ADTS framing |
| `transplant`, `regrown` | donors, walking a payload, growing a new index; what the new index says when it is read |
| `ebml`, `mkv_codecs`, `matroska` | EBML elements, codec sniffing, re-heading |
| `gestalt` | what a decoded frame looks like, in whole numbers |
| `divine` | evidence, grids of guesses, ranking |
| `ffx`, `rescue` | what the tools are asked and what their answers mean; what is done next |

The laws that span functions are the public proof functions named `law_...`.

`app/` is the command line around it: files, ffmpeg and ffprobe, floating-point scores,
the optional image model, and what is printed. `tests/` runs the library.

Scores that the program reads as floating-point numbers are held by their IEEE bits in
the library (`f64::to_bits`): none is negative, so the bits order as the numbers do.
