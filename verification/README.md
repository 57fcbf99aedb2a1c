# turbovec

The storage layer of a quantized vector index, verified with Verus: repacking
of bit-plane codes, the refine store, the `.tv` and `.tvim` file formats and
the decisions of the browser-facing index.

* `src/` is the verified library. Floating-point values are held by their bit
  patterns; the modules named `*_laws` state what holds of several operations
  together.
* `app/` is the ordinary Rust around it: files on disk, floating-point
  arithmetic and JavaScript bindings.
* `tests/` runs the library.
