# vision

The integer and bookkeeping core of a visual odometry and structure-from-motion
toolkit, verified with Verus.

- `src/features/geometry`: pixel points and offsets, and the midpoint (Bresenham)
  circle used around FAST corners, with its symmetry and radius laws.
- `src/image/orb_feature.rs`: ORB features and their ranking by response.
- `src/image/epipolar.rs`: the choice among the candidate motions of an essential
  matrix by sign votes, and the bookkeeping of the initial camera motions (which
  match sets are used, which pairs start at the root, when to fall back to the
  identity).
- `src/io`: the grammar of numbers in text form, the closest-timestamp scan, the
  layout of depth maps written as text, the choice and order of image files by
  extension and by the number in their names, and the number texts of
  camera-intrinsics files (the only trusted item, `char::is_numeric`, lives here).
- `src/sfm`: the structure-from-motion configuration (path pairs, view ids) and
  the numbering of views for rotation averaging.
- `app/`: the floating-point parts (SVDs, robust weights, rotation averaging,
  matrix files) around the library.
