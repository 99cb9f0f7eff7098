//! Rotary position embedding.

use vstd::prelude::*;

use crate::error::DType;
use crate::gpu::device::{same_but, Device, DeviceView};
use crate::gpu::memory::Term;
use crate::gpu::recorder::Recorder;
use crate::gpu::tensor::{addressable, lemma_numel_2, lemma_numel_3, Tensor};
use crate::kernels::{rope, rope_term};
use crate::nn::layers::{in_range, produced};

verus! {

/// Precomputed rotary-position-embedding tables and the kernel application wrapper.
///
/// `cos`/`sin` are `[max_seq, head_dim / 2]`.
#[derive(Debug)]
pub struct Rope {
    pub cos: Tensor,
    pub sin: Tensor,
    pub head_dim: usize,
    pub max_seq: usize,
}

/// What a [`Rope`] is: what its tables hold, and the head size.
pub struct RopeView {
    pub cos: Term,
    pub sin: Term,
    pub head_dim: usize,
}

impl RopeView {
    /// The rotation of `seq` rows of `n_heads` heads, the first row at position `base_pos`.
    pub open spec fn of(self, x: Term, seq: usize, n_heads: usize, base_pos: usize) -> Term {
        rope_term(x, self.cos, self.sin, seq, n_heads, self.head_dim, base_pos, Term::Unset)
    }
}

/// Whether the machine can address `seq` rows of `n_heads` heads of `head_dim` numbers.
pub open spec fn fits_heads(seq: int, n_heads: int, head_dim: int) -> bool {
    seq * n_heads <= usize::MAX && seq * n_heads * head_dim * 4 <= usize::MAX
}

/// Tests whether the machine can address `seq` rows of `n_heads` heads of `head_dim` numbers.
pub fn heads_in_range(seq: usize, n_heads: usize, head_dim: usize) -> (r: bool)
    ensures
        r == fits_heads(seq as int, n_heads as int, head_dim as int),
{
    match seq.checked_mul(n_heads) {
        Some(n) => in_range(n, head_dim),
        None => false,
    }
}

impl Rope {
    /// Uploads the tables: the single-precision codes of the cosine and the sine of the angle of
    /// each position and each pair of a head.
    pub fn build(
        dev: &mut Device,
        max_seq: usize,
        head_dim: usize,
        cos: &[u32],
        sin: &[u32],
    ) -> (r: Rope)
        requires
            old(dev)@.wf(),
            max_seq * (head_dim / 2) * 4 <= usize::MAX,
            cos@.len() == max_seq * (head_dim / 2),
            sin@.len() == max_seq * (head_dim / 2),
        ensures
            final(dev)@.wf(),
            r.head_dim == head_dim,
            r.made_for(max_seq),
            r.ok(final(dev)@),
            r.on(final(dev)@) == (RopeView {
                cos: Term::Words(cos@),
                sin: Term::Words(sin@),
                head_dim,
            }),
            r.cos.buffer != r.sin.buffer,
            !old(dev)@.live.contains(r.cos.buffer),
            !old(dev)@.live.contains(r.sin.buffer),
            final(dev)@.live == old(dev)@.live.insert(r.cos.buffer).insert(r.sin.buffer),
            same_but(old(dev)@, final(dev)@, Set::empty()),
    {
        let shape: [usize; 2] = [max_seq, head_dim / 2];
        proof {
            lemma_numel_2(max_seq, head_dim / 2);
            assert(shape@ =~= seq![max_seq, head_dim / 2]);
        }
        let c = Tensor::from_f32(dev, &shape, cos);
        let s = Tensor::from_f32(dev, &shape, sin);
        Rope { cos: c, sin: s, head_dim, max_seq }
    }

    /// Whether the tables are those of `max_seq` positions: single-precision numbers, half a head
    /// of them for each position.
    pub open spec fn made_for(&self, max_seq: usize) -> bool {
        &&& self.max_seq == max_seq
        &&& self.cos.shape@ == seq![max_seq, self.head_dim / 2]
        &&& self.sin.shape@ == seq![max_seq, self.head_dim / 2]
        &&& self.cos.dtype == DType::F32
        &&& self.sin.dtype == DType::F32
    }

    /// Whether the tables are in use on a device.
    pub open spec fn ok(&self, d: DeviceView) -> bool {
        self.cos.ok(d) && self.sin.ok(d)
    }

    /// The tables with what they hold on a device.
    pub open spec fn on(&self, d: DeviceView) -> RopeView {
        RopeView { cos: self.cos.in_dev(d), sin: self.sin.in_dev(d), head_dim: self.head_dim }
    }

    /// Whether a buffer is one of the tables.
    pub open spec fn uses(&self, id: usize) -> bool {
        id == self.cos.buffer || id == self.sin.buffer
    }

    /// `x` is `[seq, n_heads, head_dim]`; returns the rotated tensor of the same shape.
    /// `base_pos` is the sequence position of the first row.
    pub fn apply(
        &self,
        rec: &mut Recorder,
        x: &Tensor,
        seq: usize,
        n_heads: usize,
        base_pos: usize,
    ) -> (r: Tensor)
        requires
            old(rec).wf(),
            self.ok(old(rec)@),
            x.ok(old(rec)@),
            fits_heads(seq as int, n_heads as int, self.head_dim as int),
        ensures
            final(rec).wf(),
            produced(
                old(rec)@,
                final(rec)@,
                r,
                seq![seq, n_heads, self.head_dim],
                self.on(old(rec)@).of(x.in_dev(old(rec)@), seq, n_heads, base_pos),
            ),
    {
        let shape: [usize; 3] = [seq, n_heads, self.head_dim];
        proof {
            lemma_numel_3(seq, n_heads, self.head_dim);
            assert(shape@ =~= seq![seq, n_heads, self.head_dim]);
            let n = seq * n_heads;
            let hd = self.head_dim as int;
            assert(n * hd <= usize::MAX && n * (hd / 2) <= n * hd) by (nonlinear_arith)
                requires
                    n * hd * 4 <= usize::MAX,
                    n >= 0,
                    hd >= 0,
            ;
        }
        let out = rec.empty(&shape, DType::F32);
        rope(rec, x, &self.cos, &self.sin, &out, seq, n_heads, self.head_dim, base_pos);
        out
    }
}

/// The machine can address rows of heads where it can address a tensor of that shape.
pub proof fn lemma_fits_heads(rows: usize, n_heads: usize, head_dim: usize)
    ensures
        fits_heads(rows as int, n_heads as int, head_dim as int) ==> addressable(
            seq![rows, n_heads, head_dim],
            DType::F32,
        ),
        addressable(seq![rows, n_heads, head_dim], DType::F32) && rows * n_heads <= usize::MAX
            ==> fits_heads(rows as int, n_heads as int, head_dim as int),
{
    lemma_numel_3(rows, n_heads, head_dim);
    assert(rows * n_heads * head_dim >= 0) by (nonlinear_arith);
}

} // verus!
