# kineprism

Structural comparison of two UI screenshots. Instead of a pixel-by-pixel diff, the comparison
reports what happened to the content: a region that moved (and by how much), resized, appeared,
disappeared or changed, plus a canvas-size record when the canvases differ. Findings are sorted
deterministically, numbered `D1`, `D2`, ..., summarised, and drawn onto annotated copies of both
screenshots and a white diagnostic canvas.

## Layout

- `src/` is the verified library (Verus). It holds the decisions and the integer geometry of the
  comparison, each function with a contract:
  - `geometry`, `report`, `text`: rectangles, offsets, report types and decimal text;
  - `mask`: boolean grids and their eight-connected components;
  - `mapping`: pixel correspondences under a global displacement, and the structural mapping
    that adds validated movements while using every pixel at most once;
  - `alignment`, `metrics`: the integer parts of the global alignment search and of SSIM;
  - `proposals`, `local`, `matching`, `classify`, `movement`, `residual`: content proposals,
    residual regions, candidate bucketing and mutual-best pairing, pair classification,
    coalescing of adjacent movements, and the accounting of residual differences;
  - `compare`: settings and size validation, report order, identifiers and summary counts;
  - `raster`, `render`, `font`, `annotate`: RGBA rasters (held in an `image` buffer), drawing
    primitives, the bitmap font and the annotation of the three artifacts;
  - `artifacts`: the state machine that commits the four artifacts as one transaction and
    rolls back on failure;
  - `summary`, `uri`: the plain-text summary and `file://` root decoding of the MCP tool.
- `app/` is the program around it: command-line parsing, PNG decoding and encoding, the file
  system, the MCP server, JSON serialisation, and the floating-point parts of the comparison
  (colour normalisation, perceptual distances, the alignment and movement searches' scores and
  the similarity metrics), which feed plain values into the library.
- `tests/` exercises the library.
