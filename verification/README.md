# liteparse

Decides which pages of a document are to be read by OCR, asks an OCR server, and merges
what it reads into the text that the pages already have.

- `src/` is the library. Verus proves the contract of every function in it but two:
  `encode_png` and `drop_alpha` in `raster` call the `image` crate, and their contracts,
  which say what is relied on there, are taken on trust.
  - `scalar`: single-precision numbers by their bit patterns, compared exactly.
  - `rounding`, `arithmetic`: their sums, products and quotients, correctly rounded.
  - `text`: cleaning what table borders were misread as.
  - `ocr`: options, results and errors of an engine.
  - `response`: the two shapes of server replies and what they come to.
  - `raster`: page images, through the `image` crate.
  - `engine`: the request to a server and the reading of its reply.
  - `survey`: the walk over the pages that gathers the images to be read.
  - `merge`: which pages need reading, and the merging of results.
- `app/` is the code around it: JSON, HTTP, PDF rendering and threads.
- `tests/` runs the library.

Functions named `law_...` prove what holds of the library as a whole.
