//! A two-dimensional ray-optics solver.
//!
//! A scene is a set of line segments, each carrying an optical behaviour
//! (mirror-reflective, absorptive, or transparent).  Given a ray (origin,
//! direction, colour/energy), the solver finds the nearest segment the ray
//! hits, applies the segment's behaviour -- possibly splitting the ray into a
//! reflected and a transmitted branch with an energy split -- and continues
//! until every branch terminates by absorption, energy exhaustion, the
//! maximum travel distance, or the global cap on emitted segments.
//!
//! All geometry is exact: coordinates are integers, directions are integer
//! vectors understood up to positive scale (the integer analogue of a
//! normalized vector is a vector reduced by the greatest common divisor of
//! its components), and intersection points are exact rational points.
//! Colour and energy are carried in millionths (parts per million) of full
//! intensity.

pub mod geom;
pub mod labyrinth;
pub mod network;
pub mod num;
pub mod solver;
