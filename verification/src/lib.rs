//! The counting and bookkeeping of an escape-time renderer of the Mandelbrot
//! set: how an image is cut into bands of rows for parallel workers, how a
//! band is filled pixel by pixel, how an orbit is followed until it escapes,
//! how escape counts become gray levels, and in which order the frames of a
//! zoom are shown.
//!
//! The arithmetic on points of the plane is the caller's: it comes in as
//! functions that step an orbit, test a point, report the escape count of a
//! pixel, render a viewport or shrink one. What is proved here holds for every
//! such function.

pub mod bands;
pub mod escape;
pub mod frame;
pub mod pairs;
pub mod palette;
pub mod render;
pub mod zoom;
