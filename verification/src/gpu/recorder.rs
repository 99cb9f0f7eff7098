//! The recorder of GPU work.

use vstd::prelude::*;

use crate::error::DType;
use crate::gpu::device::{
    gained, recycled, same_but, works, writes, Batch, Device, DeviceView, Usage,
};
use crate::gpu::kernel::uniform_u32;
use crate::gpu::memory::{host_log, outcome, Event, Op, Term};
use crate::gpu::tensor::{addressable, Tensor};
use crate::shape::numel;

verus! {

/// Accumulates GPU work into a single batch, submitted once.
///
/// A whole forward step records many compute dispatches into one recorder and submits once, which
/// keeps the overhead of each dispatch small.
pub struct Recorder {
    dev: Device,
}

impl View for Recorder {
    type V = DeviceView;

    closed spec fn view(&self) -> DeviceView {
        self.dev@
    }
}

impl Recorder {
    /// Whether the device's account is consistent.
    pub open spec fn wf(self) -> bool {
        self@.wf()
    }

    /// Begins a batch of work on a device.
    pub fn new(dev: Device) -> (r: Recorder)
        requires
            dev@.wf(),
        ensures
            r.wf(),
            r@ == dev@,
    {
        Recorder { dev }
    }

    /// The device.
    pub fn device(&self) -> (r: &Device)
        ensures
            r@ == self@,
    {
        &self.dev
    }

    /// Ends the batch: gives back the device, and what the host has to do.
    pub fn submit(self) -> (r: (Device, Batch))
        requires
            self.wf(),
        ensures
            r.0@.wf(),
            writes(r.1.uploads@) == self@.uploads,
            works(r.1.ops@) == self@.pending,
            r.0@ == (DeviceView {
                uploads: Seq::empty(),
                pending: Seq::empty(),
                host: host_log(self@.host, self@.uploads, self@.pending),
                ..self@
            }),
    {
        let mut dev = self.dev;
        let batch = dev.take_batch();
        (dev, batch)
    }

    /// Records work on buffers that are in use.
    pub(crate) fn push(&mut self, op: Op)
        requires
            old(self).wf(),
            op@.bound(),
            forall|id: usize| #[trigger] op@.touches(id) ==> old(self)@.live.contains(id),
            old(self)@.live.contains(op@.target()),
        ensures
            final(self).wf(),
            final(self)@ == (DeviceView {
                pending: old(self)@.pending.push(op@),
                log: old(self)@.log.push(Event::Run(op@)),
                ..old(self)@
            }),
            final(self)@.holds(op@.target()) == outcome(old(self)@.log, op@),
            same_but(old(self)@, final(self)@, set![op@.target()]),
    {
        self.dev.push(op);
    }

    /// Allocates a tensor whose contents are unspecified.
    pub fn empty(&mut self, shape: &[usize], dtype: DType) -> (r: Tensor)
        requires
            old(self).wf(),
            addressable(shape@, dtype),
        ensures
            final(self).wf(),
            r.shape@ == shape@,
            r.dtype == dtype,
            r.ok(final(self)@),
            r.in_dev(final(self)@) == Term::Unset,
            gained(old(self)@, final(self)@, r.buffer),
    {
        Tensor::empty(&mut self.dev, shape, dtype)
    }

    /// Allocates an integer tensor and uploads its elements.
    pub fn from_u32(&mut self, shape: &[usize], data: &[u32]) -> (r: Tensor)
        requires
            old(self).wf(),
            addressable(shape@, DType::U32),
            data@.len() == numel(shape@),
        ensures
            final(self).wf(),
            r.shape@ == shape@,
            r.dtype == DType::U32,
            r.ok(final(self)@),
            r.in_dev(final(self)@) == Term::Words(data@),
            gained(old(self)@, final(self)@, r.buffer),
    {
        Tensor::from_u32(&mut self.dev, shape, data)
    }

    /// Creates a small uniform buffer initialized from `data`.
    pub fn uniform(&mut self, data: &[u32]) -> (r: usize)
        requires
            old(self).wf(),
            4 * data@.len() + 15 <= usize::MAX,
        ensures
            final(self).wf(),
            final(self)@.live.contains(r),
            final(self)@.buffers[r as int].usage == Usage::Uniform,
            final(self)@.holds(r) == Term::Words(data@),
            gained(old(self)@, final(self)@, r),
    {
        uniform_u32(&mut self.dev, data)
    }

    /// Frees a buffer.
    pub fn free(&mut self, id: usize)
        requires
            old(self).wf(),
            old(self)@.live.contains(id),
        ensures
            final(self).wf(),
            final(self)@.live == old(self)@.live.remove(id),
            same_but(old(self)@, final(self)@, Set::empty()),
    {
        self.dev.free_buffer(id);
    }

    /// Gives a tensor's buffer back.
    pub fn recycle(&mut self, t: Tensor)
        requires
            old(self).wf(),
            t.ok(old(self)@),
        ensures
            final(self).wf(),
            final(self)@ == recycled(old(self)@, t.buffer),
            final(self)@.live == old(self)@.live.remove(t.buffer),
            same_but(old(self)@, final(self)@, Set::empty()),
    {
        t.recycle(&mut self.dev);
    }
}

} // verus!
