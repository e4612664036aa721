# jpeg_unround

JPEG decoding within the quantization intervals: the exact, integer and byte-level
parts of the reconstruction, each function with a contract that Verus proves.

- `src/` is the library. Each module says at its top what it holds: the metadata and
  coefficients that the C layer of JPEG reading hands over, checked (`jpegio`); the
  components of a file on one canvas (`frames`, `decode`); the layout of the solvers'
  planes and its round trips (`planar`); rationals, Bernoulli numbers and the
  correctly rounded double of a quotient, bit for bit (`exact`); EXIF orientations
  (`orientation`); TIFF and PNM files (`tiff`, `output`); the command line (`cli`);
  and the decisions of the C interface (`capi`).
- `tests/` runs the library on concrete values.
- `app/` is the program `unround`: its arguments, its files, the calls into the C
  layer, and the options and samples that are real numbers.

The solvers themselves work in binary64 and are not part of this crate.
