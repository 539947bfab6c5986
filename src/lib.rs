//! A time-domain relaxation solver for lumped electrical circuits, together
//! with a small dense-matrix module.
pub mod linalg;
pub mod sim;
