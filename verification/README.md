# eigen

Small numerics toolkit: Kalman filtering, classical multidimensional scaling,
Umeyama point-cloud alignment, fourth-order Runge–Kutta integration and
Levenberg–Marquardt least squares, over `nalgebra` matrices.

- `src/` is the verified library (Verus). It holds the logic that does not need
  floating point: the count checks and error types, the layout of the centering
  matrix of multidimensional scaling (with its symmetry, zero row sums and
  idempotence proved), the selection that orders eigenvalues from the largest
  (proved to yield a descending permutation), the masks of the embedding, the SVD
  factor check, the reflection correction and the homogeneous transform layout of
  Umeyama's method, and the iteration control of Levenberg–Marquardt (damping
  updates, stopping rule and reported iteration count).
- `app/` holds the floating-point matrix algebra on top of it.
- `tests/` runs the library on concrete values.
