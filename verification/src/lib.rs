//! The processing of delay and convolver audio nodes.
//!
//! Samples are held as the bit patterns of floating-point numbers (`binary`). Arithmetic that
//! rounds, the mixing of channels and the Fourier transform are the caller's, who hands them in
//! as an implementation of the traits in `arithmetic`.
pub mod arithmetic;
pub mod audio_buffer;
pub mod audio_node;
pub mod binary;
pub mod block;
pub mod convolution_laws;
pub mod convolver_laws;
pub mod convolver_node;
pub mod delay_node;
pub mod direct_delay_node;
pub mod dom_convolver_node;
pub mod node_laws;
pub mod power_laws;
pub mod rounding;
