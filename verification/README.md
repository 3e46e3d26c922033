# still265

A still-image HEVC encoder core, verified with Verus: presets and search budgets, entropy
coding, the search over coding and transform quadtrees, coefficient refinement, sample
adaptive offsets, adaptive quantisation, and the passes of an encode.

- `src/` is the library. Arithmetic coding stands in `cabac`, `arith_code`, `arith_decode`,
  `bins` and `slice`; presets in `effort`, `presets` and `budget`; the search in `rough`,
  `mode_search`, `tu_search`, `luma_search`, `cu_leaf`, `nxn_search` and `cu_search`; what is
  coded in the end in `replay` and `cu_tree`; the trees of a whole picture in `slice_build`;
  the encoder itself in `encode_pass`, `stream` and `still_encoder`.
- Prediction, transforms and rate-distortion costs are functions that the caller passes in.
  Contracts are stated over whatever those return. A cost is an integer that orders as the
  cost does; ratios are in thousandths.
- `tests/` runs the library.
- `app/` is what surrounds it: floating-point costs and qualities, the environment, threads,
  reports, a driver that joins the search to a set of pixel operations, and an encode in one
  pass or two on top of it.
