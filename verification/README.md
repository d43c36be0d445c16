# png

A PNG decoder whose behaviour is stated in contracts and proved with Verus.

- `src/` is the library. `decoder` turns the bytes of a file, handed over in pieces of any size,
  into decoded blocks. `reader` puts the blocks together into rows, undoes their filters and
  expands palette indices and packed gray samples. `model` and `reader_model` say what the two do
  as functions on mathematical values; `decoder_laws`, `reader_laws` and `image_laws` hold what
  follows from that over several calls, and of whole images. Decompression is left to `miniz_oxide` (`inflater`).
- `tests/` runs the library on files that it builds itself.
- `app/` reads images from any `std::io::Read`.
