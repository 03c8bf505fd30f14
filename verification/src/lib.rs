//! Verified pieces of a small numerics toolkit: the index and control logic of
//! classical multidimensional scaling, Umeyama point-cloud alignment and the
//! Levenberg–Marquardt solver.

pub mod multidimensional_scaling;
pub mod umeyama;
pub mod levenberg_marquardt;
