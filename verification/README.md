# rapidtag

Fiducial-marker detection (ArUco / AprilTag markers, ChArUco boards, plain
chessboards, rigid multi-marker bodies) for Python, with its integer logic
verified.

## Layout

- `src/` — the verified library. Every function carries a contract that the
  verifier proves:
  - `affinity` — core lists (`4-7`, `4,5,6`), sysfs entry parsing, and the
    choice of the fast cores for the worker pool;
  - `board` — which ChArUco squares carry markers, their ids, the interior
    corner grid;
  - `charuco` — marker lookup, in-image selection of predicted corners, and
    the filter on detected neighbouring markers;
  - `chessboard` — union-find, breadth-first distances, grid validation and
    candidate orders of a corner graph, erosion, Otsu labels;
  - `contours` — border following over a binary image;
  - `corner_graph` — coincident quad vertices merged into corners, corners
    joined along quad edges and split into connected components;
  - `detector` — threshold scale count, near-duplicate grouping, border-cell
    counting, corner rotation;
  - `dictionary` — bit packing, Hamming distances over rotations,
    identification, and the predefined dictionary tables and names;
  - `imgproc` — exact Otsu level, adaptive mean threshold, image array shape;
  - `pnp` — the deterministic xorshift64* sampler used by RANSAC;
  - `rigid_body` — marker-set validation, detection matching and inlier
    markers.
- `tests/` — tests of the library.
- `app/` — the Python extension module (PyO3): array access, threading, CPU
  pinning, and the floating-point geometry (polygon fitting, homographies,
  sub-pixel refinement, pose estimation), calling the library for the rest.

## Dictionary tables

The predefined dictionaries are read at run time from the file named by the
`RAPIDTAG_DICTIONARY_TABLES` environment variable: the ten base tables (4x4,
5x5, 6x6, 7x7 with 1000 markers each, ArUco original with 1024, ArUco MIP
36h12 with 250, AprilTag 16h5, 25h9, 36h10 and 36h11 with 30, 35, 2320 and
587), concatenated in that order, each marker stored as its four rotations,
`ceil(size * size / 8)` bytes each — 152 324 bytes in all.
