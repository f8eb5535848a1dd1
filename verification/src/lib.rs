//! A verified Mandelbrot renderer.
//!
//! The engine maps each pixel of a fixed-resolution image onto the complex
//! plane, runs the escape-time iteration there, and fills a grayscale buffer,
//! splitting the image into horizontal bands that render in parallel. The
//! arithmetic is exact fixed-point (`i64` units of `1 / fixed::SCALE`), so
//! every pixel value is pinned by a specification and the band decomposition
//! provably reproduces a sequential render byte for byte.

pub mod complex;
pub mod fixed;
pub mod mandelbrot;
pub mod viewport;

pub use complex::Complex;
pub use fixed::SCALE;
pub use mandelbrot::Mandelbrot;
pub use viewport::Viewport;
