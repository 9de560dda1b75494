//! Raster-image support for a small path tracer: the pixel/image data model,
//! the plain-text image codec, and the frame-buffer blit used by the viewer.

pub mod frame;
pub mod image;
pub mod ppm;
