//! Linear layers, norms, embeddings and feed-forward blocks.

use vstd::prelude::*;

use crate::error::DType;
use crate::gpu::device::{gained, DeviceView};
use crate::gpu::memory::Term;
use crate::gpu::recorder::Recorder;
use crate::gpu::tensor::{addressable, lemma_numel_2, Tensor};
use crate::kernels::{
    embedding_f16, embedding_f16_term, geglu, geglu_term, linear_f16w, linear_f16w_term, rmsnorm,
    rmsnorm_term, swiglu, swiglu_term,
};

verus! {

/// Whether `b` is `a` with one more tensor in use: a new single-precision one of this shape that
/// holds `t`.
pub open spec fn produced(
    a: DeviceView,
    b: DeviceView,
    r: Tensor,
    shape: Seq<usize>,
    t: Term,
) -> bool {
    &&& gained(a, b, r.buffer)
    &&& r.ok(b)
    &&& r.shape@ == shape
    &&& r.dtype == DType::F32
    &&& r.in_dev(b) == t
}

/// Whether the machine can address `rows` rows of `cols` numbers in single precision.
pub open spec fn fits(rows: int, cols: int) -> bool {
    rows * cols * 4 <= usize::MAX
}

/// Tests whether the machine can address `rows` rows of `cols` numbers in single precision.
pub fn in_range(rows: usize, cols: usize) -> (r: bool)
    ensures
        r == fits(rows as int, cols as int),
{
    match rows.checked_mul(cols) {
        Some(n) => n <= usize::MAX / 4,
        None => false,
    }
}

/// Allocates `rows` rows of `cols` numbers in single precision.
pub(crate) fn grid(rec: &mut Recorder, rows: usize, cols: usize) -> (r: Tensor)
    requires
        old(rec).wf(),
        fits(rows as int, cols as int),
    ensures
        final(rec).wf(),
        produced(old(rec)@, final(rec)@, r, seq![rows, cols], Term::Unset),
{
    let shape: [usize; 2] = [rows, cols];
    proof {
        lemma_numel_2(rows, cols);
        assert(rows * cols <= usize::MAX) by (nonlinear_arith)
            requires
                rows * cols * 4 <= usize::MAX,
                rows * cols >= 0,
        ;
        assert(shape@ =~= seq![rows, cols]);
    }
    rec.empty(&shape, DType::F32)
}

/// A bias-free linear layer with weights of packed halves `[out_f, in_f]` (Hugging Face layout).
#[derive(Debug)]
pub struct Linear {
    pub w: Tensor,
    pub in_f: usize,
    pub out_f: usize,
}

/// What a [`Linear`] layer is: what its weights hold, and its sizes.
pub struct LinearView {
    pub w: Term,
    pub in_f: usize,
    pub out_f: usize,
}

impl LinearView {
    /// The layer's output for `rows` rows.
    pub open spec fn of(self, x: Term, rows: usize) -> Term {
        linear_f16w_term(x, self.w, rows, self.in_f, self.out_f, Term::Unset)
    }
}

impl Linear {
    pub fn new(w: Tensor, in_f: usize, out_f: usize) -> (r: Self)
        ensures
            r == (Linear { w, in_f, out_f }),
    {
        Linear { w, in_f, out_f }
    }

    /// Whether the weights are in use on a device.
    pub open spec fn ok(self, d: DeviceView) -> bool {
        self.w.ok(d)
    }

    /// The layer with what its weights hold on a device.
    pub open spec fn on(self, d: DeviceView) -> LinearView {
        LinearView { w: self.w.in_dev(d), in_f: self.in_f, out_f: self.out_f }
    }

    /// `x` is `[rows, in_f]`; returns `[rows, out_f]`.
    pub fn forward(&self, rec: &mut Recorder, x: &Tensor, rows: usize) -> (r: Tensor)
        requires
            old(rec).wf(),
            self.ok(old(rec)@),
            x.ok(old(rec)@),
            fits(rows as int, self.out_f as int),
        ensures
            final(rec).wf(),
            produced(
                old(rec)@,
                final(rec)@,
                r,
                seq![rows, self.out_f],
                self.on(old(rec)@).of(x.in_dev(old(rec)@), rows),
            ),
    {
        let out = grid(rec, rows, self.out_f);
        linear_f16w(rec, x, &self.w, &out, rows, self.in_f, self.out_f);
        out
    }
}

/// RMSNorm over the last dimension (`dim`) of a `[rows, dim]` activation. `eps` is a
/// single-precision code.
#[derive(Debug)]
pub struct RmsNorm {
    pub w: Tensor,
    pub eps: u32,
    pub dim: usize,
}

/// What an [`RmsNorm`] is: what its weights hold, its offset and its size.
pub struct RmsNormView {
    pub w: Term,
    pub eps: u32,
    pub dim: usize,
}

impl RmsNormView {
    /// The norm's output for `rows` rows.
    pub open spec fn of(self, x: Term, rows: usize) -> Term {
        rmsnorm_term(x, self.w, rows, self.dim, self.eps, Term::Unset)
    }
}

impl RmsNorm {
    pub fn new(w: Tensor, eps: u32, dim: usize) -> (r: Self)
        ensures
            r == (RmsNorm { w, eps, dim }),
    {
        RmsNorm { w, eps, dim }
    }

    /// Whether the weights are in use on a device.
    pub open spec fn ok(self, d: DeviceView) -> bool {
        self.w.ok(d)
    }

    /// The norm with what its weights hold on a device.
    pub open spec fn on(self, d: DeviceView) -> RmsNormView {
        RmsNormView { w: self.w.in_dev(d), eps: self.eps, dim: self.dim }
    }

    /// `x` is `[rows, dim]`; returns `[rows, dim]`.
    pub fn forward(&self, rec: &mut Recorder, x: &Tensor, rows: usize) -> (r: Tensor)
        requires
            old(rec).wf(),
            self.ok(old(rec)@),
            x.ok(old(rec)@),
            fits(rows as int, self.dim as int),
        ensures
            final(rec).wf(),
            produced(
                old(rec)@,
                final(rec)@,
                r,
                seq![rows, self.dim],
                self.on(old(rec)@).of(x.in_dev(old(rec)@), rows),
            ),
    {
        let out = grid(rec, rows, self.dim);
        rmsnorm(rec, x, &self.w, &out, rows, self.dim, self.eps);
        out
    }
}

/// Token embedding lookup over a table of packed halves `[vocab, dim]`.
#[derive(Debug)]
pub struct Embedding {
    pub table: Tensor,
    pub vocab: usize,
    pub dim: usize,
}

impl Embedding {
    pub fn new(table: Tensor, vocab: usize, dim: usize) -> (r: Self)
        ensures
            r == (Embedding { table, vocab, dim }),
    {
        Embedding { table, vocab, dim }
    }

    /// `ids` is `[n]`; returns `[n, dim]`.
    pub fn forward(&self, rec: &mut Recorder, ids: &Tensor, n: usize) -> (r: Tensor)
        requires
            old(rec).wf(),
            self.table.ok(old(rec)@),
            ids.ok(old(rec)@),
            fits(n as int, self.dim as int),
        ensures
            final(rec).wf(),
            produced(
                old(rec)@,
                final(rec)@,
                r,
                seq![n, self.dim],
                embedding_f16_term(
                    ids.in_dev(old(rec)@),
                    self.table.in_dev(old(rec)@),
                    n,
                    self.dim,
                    Term::Unset,
                ),
            ),
    {
        let out = grid(rec, n, self.dim);
        assert(n * self.dim <= usize::MAX);
        embedding_f16(rec, ids, &self.table, &out, n, self.dim);
        out
    }
}

/// How a feed-forward block combines its two branches.
#[derive(Clone, Copy, Debug, PartialEq, Eq, Structural)]
pub enum Activation {
    Swiglu,
    Geglu,
}

/// Gated feed-forward block: `down(act(gate(x)) * up(x))`.
#[derive(Debug)]
pub struct Mlp {
    pub gate: Linear,
    pub up: Linear,
    pub down: Linear,
    pub activation: Activation,
}

/// What an [`Mlp`] is: its layers, and how it combines them.
pub struct MlpView {
    pub gate: LinearView,
    pub up: LinearView,
    pub down: LinearView,
    pub activation: Activation,
}

impl MlpView {
    /// The combination of the two branches.
    pub open spec fn inner(self, x: Term, rows: usize) -> Term {
        let n = (rows * self.gate.out_f) as usize;
        match self.activation {
            Activation::Swiglu => swiglu_term(
                self.gate.of(x, rows),
                self.up.of(x, rows),
                n,
                Term::Unset,
            ),
            Activation::Geglu => geglu_term(
                self.gate.of(x, rows),
                self.up.of(x, rows),
                n,
                Term::Unset,
            ),
        }
    }

    /// The block's output for `rows` rows.
    pub open spec fn of(self, x: Term, rows: usize) -> Term {
        self.down.of(self.inner(x, rows), rows)
    }
}

impl Mlp {
    /// A SwiGLU feed-forward block.
    pub fn new(gate: Linear, up: Linear, down: Linear) -> (r: Self)
        ensures
            r == (Mlp { gate, up, down, activation: Activation::Swiglu }),
    {
        Mlp { gate, up, down, activation: Activation::Swiglu }
    }

    /// A GeGLU feed-forward block.
    pub fn geglu(gate: Linear, up: Linear, down: Linear) -> (r: Self)
        ensures
            r == (Mlp { gate, up, down, activation: Activation::Geglu }),
    {
        Mlp { gate, up, down, activation: Activation::Geglu }
    }

    /// Whether the weights are in use on a device.
    pub open spec fn ok(self, d: DeviceView) -> bool {
        self.gate.ok(d) && self.up.ok(d) && self.down.ok(d)
    }

    /// The block with what its weights hold on a device.
    pub open spec fn on(self, d: DeviceView) -> MlpView {
        MlpView {
            gate: self.gate.on(d),
            up: self.up.on(d),
            down: self.down.on(d),
            activation: self.activation,
        }
    }

    /// Whether the machine can address what the block computes for `rows` rows.
    pub open spec fn fits(self, rows: usize) -> bool {
        &&& fits(rows as int, self.gate.out_f as int)
        &&& fits(rows as int, self.up.out_f as int)
        &&& fits(rows as int, self.down.out_f as int)
    }

    /// Tests whether the machine can address what the block computes for `rows` rows.
    pub fn in_range(&self, rows: usize) -> (r: bool)
        ensures
            r == self.fits(rows),
    {
        in_range(rows, self.gate.out_f) && in_range(rows, self.up.out_f) && in_range(
            rows,
            self.down.out_f,
        )
    }

    /// `x` is `[rows, hidden]`; returns `[rows, hidden]`.
    pub fn forward(&self, rec: &mut Recorder, x: &Tensor, rows: usize) -> (r: Tensor)
        requires
            old(rec).wf(),
            self.ok(old(rec)@),
            x.ok(old(rec)@),
            self.fits(rows),
        ensures
            final(rec).wf(),
            produced(
                old(rec)@,
                final(rec)@,
                r,
                seq![rows, self.down.out_f],
                self.on(old(rec)@).of(x.in_dev(old(rec)@), rows),
            ),
    {
        let ghost a = rec@;
        let inter = self.gate.out_f;
        let g = self.gate.forward(rec, x, rows);
        let u = self.up.forward(rec, x, rows);
        let h = grid(rec, rows, inter);
        assert(rows * inter <= usize::MAX);
        match self.activation {
            Activation::Swiglu => swiglu(rec, &g, &u, &h, rows * inter),
            Activation::Geglu => geglu(rec, &g, &u, &h, rows * inter),
        }
        assert(h.in_dev(rec@) == self.on(a).inner(x.in_dev(a), rows));
        let r = self.down.forward(rec, &h, rows);
        rec.recycle(h);
        rec.recycle(u);
        rec.recycle(g);
        assert(rec@.live =~= a.live.insert(r.buffer));
        r
    }
}

/// The machine can address rows of numbers exactly where it can address a tensor of that shape.
pub proof fn lemma_fits(rows: usize, cols: usize)
    ensures
        fits(rows as int, cols as int) <==> addressable(seq![rows, cols], DType::F32),
{
    lemma_numel_2(rows, cols);
    assert(rows * cols >= 0) by (nonlinear_arith);
}

} // verus!
