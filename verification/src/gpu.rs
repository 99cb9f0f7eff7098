//! GPU foundation: the buffers of a device, tensors over them, a recorder of GPU work and the
//! kernel-dispatch helpers. Everything above this module composes these.
//!
//! Nothing here talks to a GPU. A [`Device`](device::Device) keeps account of the buffers that the
//! host has to create, fill and free; a [`Recorder`](recorder::Recorder) lists the work that the
//! host has to submit. What that work leaves in each buffer is given by [`memory`].

pub mod device;
pub mod elements;
pub mod kernel;
pub mod memory;
pub mod pipeline;
pub mod recorder;
pub mod tensor;
