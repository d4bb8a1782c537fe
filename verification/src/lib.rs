//! Escape-time evaluation of the quadratic map over a pixel grid.
//!
//! The crate holds the parts of a fractal renderer that do not depend on the
//! number system: the counting rule of a lane, the scalar and the lockstep
//! batch evaluation loops, the integer half of the pixel-to-plane mapping,
//! and the renderer that fills a frame with greyscale intensities.
//!
//! The arithmetic on points of the plane is the caller's.  An orbit is a
//! value of a type that the caller chooses, and the caller hands the library
//! the functions that work on it: one that seeds the orbit of a pixel from
//! the pixel's offsets from the middle of the frame, one that applies the map
//! to an orbit once and reports the escape test, and one that tests the sign
//! of the zoom.  The contracts say what the library does with whatever those
//! functions return.

pub mod lane;
pub mod engine;
pub mod mapper;
pub mod frame;
pub mod render;
