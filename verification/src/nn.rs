//! Composable transformer primitives over [`crate::kernels`]. Each layer records GPU work into a
//! caller-owned `Recorder` and returns freshly allocated activation tensors; the caller submits.
//! Whatever else a layer allocates it gives back before it returns.

pub mod attention;
pub mod kv_cache;
pub mod layers;
pub mod rope;
pub mod rows;
