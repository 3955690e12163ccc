# tiny_renderer

A small software renderer: it loads a triangle mesh (OBJ) and its textures (TGA),
projects the mesh and rasterises it into a TGA image.

- `src/` is the library, verified with Verus:
  - `tga_image`: colors, images (pixel access, vertical flip, line drawing), the
    TGA header, run-length decoding, and reading and writing TGA file bytes;
  - `geometry`: vectors and matrices over any element type whose operators carry a
    specification (dot and cross products, element-wise operations, matrix product,
    columns, minors);
  - `model`: the mesh tables and their face lookups;
  - `obj`: reading the lines of an OBJ mesh file (fields, face corners, integers).
- `app/` is the program: file input and output, and the floating-point parts of the
  renderer (vector lengths, camera and viewport matrices, triangle rasterisation).
- `tests/` holds the tests of the library.
