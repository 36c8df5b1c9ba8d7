//! Integer core of a palette remapping (dithering) library: the ring buffer of
//! recent errors used by Riemersma dithering, the recursive Bayer threshold
//! matrices used by ordered dithering, the Hilbert walk that orders the pixels
//! of Riemersma dithering, and the error diffusion kernels.
pub mod ring;
pub mod bayer;
pub mod hilbert;
pub mod kernel;
