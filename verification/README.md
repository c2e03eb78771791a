# image3d

Deep image analysis and stereo 3D generation: per-channel statistics, Sobel edge
statistics, grey-level co-occurrence texture, Laplacian sharpness and noise
estimates, depth maps, side-by-side stereo pairs, colour anaglyphs and wiggle GIFs.

The library in `src/` holds the integer part of the work, verified with Verus:

- `raster` — grayscale, RGB and RGBA rasters and the RGBA → grayscale conversion
  (through the `image` crate).
- `filters` — Sobel, Laplacian and neighbour-sum responses.
- `stats` — histogram, sum, extremes and median of a channel.
- `analysis` — edge counts and direction sectors, co-occurrence matrix, Laplacian
  and noise responses, colour sampling and cluster seeds.
- `depth` — the depth algorithms by name, gradient-energy and focus maps.
- `stereo` — per-pixel horizontal shifts, side-by-side pairs, anaglyphs.
- `grid`, `utils` — counting over grid regions, and `clamp`.

The command-line program in `app/` loads the image, does the floating-point
summaries (means, square roots, normalised depth, colour maps, k-means, hue),
and writes the PNG, GIF and JSON outputs.
