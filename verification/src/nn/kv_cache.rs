//! Key/value caches.

use vstd::prelude::*;

use crate::error::DType;
use crate::gpu::device::{same_but, Device, DeviceView};
use crate::gpu::memory::Term;
use crate::gpu::tensor::{lemma_buffer_room, lemma_numel_3, Tensor};
use crate::nn::rope::fits_heads;

verus! {

/// Per-layer key/value caches, each laid out seq-major `[max_seq, n_kv_heads, head_dim]`.
#[derive(Debug)]
pub struct KvCache {
    pub k: Vec<Tensor>,
    pub v: Vec<Tensor>,
    pub max_seq: usize,
    pub n_kv_heads: usize,
    pub head_dim: usize,
}

/// Whether tensors are in use on a device, each with a buffer of its own.
pub open spec fn separate(s: Seq<Tensor>, d: DeviceView) -> bool {
    &&& forall|i: int| 0 <= i < s.len() ==> (#[trigger] s[i]).ok(d)
    &&& forall|i: int, j: int|
        0 <= i < j < s.len() ==> (#[trigger] s[i]).buffer != (#[trigger] s[j]).buffer
}

impl KvCache {
    /// Whether the caches are in use on a device, each with a buffer of its own.
    pub open spec fn ok(self, d: DeviceView) -> bool {
        &&& self.k@.len() == self.v@.len()
        &&& separate(self.k@ + self.v@, d)
    }

    /// Whether a buffer is one of the caches.
    pub open spec fn uses(self, id: usize) -> bool {
        exists|i: int|
            0 <= i < (self.k@ + self.v@).len() && (#[trigger] (self.k@ + self.v@)[i]).buffer == id
    }

    /// Caches of one head size for all layers.
    pub fn new(
        dev: &mut Device,
        n_layers: usize,
        max_seq: usize,
        n_kv_heads: usize,
        head_dim: usize,
    ) -> (r: Self)
        requires
            old(dev)@.wf(),
            fits_heads(max_seq as int, n_kv_heads as int, head_dim as int),
        ensures
            final(dev)@.wf(),
            r.allocated(
                Seq::new(n_layers as nat, |i: int| head_dim),
                max_seq,
                n_kv_heads,
                old(dev)@,
                final(dev)@,
            ),
    {
        let mut head_dims: Vec<usize> = Vec::new();
        let mut i: usize = 0;
        while i < n_layers
            invariant
                i <= n_layers,
                head_dims@ == Seq::new(i as nat, |k: int| head_dim),
            decreases n_layers - i,
        {
            head_dims.push(head_dim);
            assert(head_dims@ =~= Seq::new((i + 1) as nat, |k: int| head_dim));
            i = i + 1;
        }
        KvCache::new_per_layer(dev, head_dims.as_slice(), max_seq, n_kv_heads)
    }

    /// Whether the caches are new ones for these head sizes, with unspecified contents: `b` is `a`
    /// with them in use.
    pub open spec fn allocated(
        self,
        head_dims: Seq<usize>,
        max_seq: usize,
        n_kv_heads: usize,
        a: DeviceView,
        b: DeviceView,
    ) -> bool {
        &&& self.max_seq == max_seq
        &&& self.n_kv_heads == n_kv_heads
        &&& self.head_dim == if head_dims.len() > 0 {
            head_dims[0]
        } else {
            0
        }
        &&& layers_of(self.k@, head_dims, max_seq, n_kv_heads, b)
        &&& layers_of(self.v@, head_dims, max_seq, n_kv_heads, b)
        &&& self.ok(b)
        &&& forall|id: usize| self.uses(id) ==> !#[trigger] a.live.contains(id)
        &&& b.live == a.live.union(Set::new(|id: usize| self.uses(id)))
        &&& same_but(a, b, Set::empty())
    }

    /// Allocates per-layer caches where layer `l` uses `head_dims[l]`. The uniform `head_dim`
    /// field holds `head_dims[0]` (or 0 when empty); per-layer consumers read tensor shapes.
    pub fn new_per_layer(
        dev: &mut Device,
        head_dims: &[usize],
        max_seq: usize,
        n_kv_heads: usize,
    ) -> (r: Self)
        requires
            old(dev)@.wf(),
            forall|l: int|
                0 <= l < head_dims@.len() ==> fits_heads(
                    max_seq as int,
                    n_kv_heads as int,
                    #[trigger] head_dims@[l] as int,
                ),
        ensures
            final(dev)@.wf(),
            r.allocated(head_dims@, max_seq, n_kv_heads, old(dev)@, final(dev)@),
    {
        let ghost a = dev@;
        let k = allocate(dev, head_dims, max_seq, n_kv_heads);
        let ghost b = dev@;
        let v = allocate(dev, head_dims, max_seq, n_kv_heads);
        let ghost c = dev@;
        let r = KvCache {
            k,
            v,
            max_seq,
            n_kv_heads,
            head_dim: if head_dims.len() > 0 {
                head_dims[0]
            } else {
                0
            },
        };
        proof {
            let all = r.k@ + r.v@;
            assert forall|i: int| 0 <= i < r.k@.len() implies (#[trigger] r.k@[i]).ok(c)
                && r.k@[i].in_dev(c) == Term::Unset by {
                assert(r.k@[i].ok(b));
                assert(b.live.contains(r.k@[i].buffer));
            }
            assert forall|i: int, j: int| 0 <= i < j < all.len() implies (#[trigger] all[i]).buffer
                != (#[trigger] all[j]).buffer by {
                if i < r.k@.len() && j >= r.k@.len() {
                    assert(r.k@[i].ok(b));
                    assert(!b.live.contains(r.v@[j - r.k@.len()].buffer));
                } else if i < r.k@.len() {
                    assert(r.k@[i].buffer != r.k@[j].buffer);
                } else {
                    assert(r.v@[i - r.k@.len()].buffer != r.v@[j - r.k@.len()].buffer);
                }
            }
            assert forall|i: int| 0 <= i < all.len() implies (#[trigger] all[i]).ok(c) by {
                if i < r.k@.len() {
                    assert(r.k@[i].ok(c));
                } else {
                    assert(r.v@[i - r.k@.len()].ok(c));
                }
            }
            assert forall|id: usize| c.live.contains(id) <==> #[trigger] a.live.contains(id)
                || r.uses(id) by {
                if c.live.contains(id) && !a.live.contains(id) {
                    if b.live.contains(id) {
                        let i = choose|i: int| 0 <= i < r.k@.len() && (#[trigger] r.k@[i]).buffer == id;
                        assert(all[i].buffer == id);
                    } else {
                        let i = choose|i: int| 0 <= i < r.v@.len() && (#[trigger] r.v@[i]).buffer == id;
                        assert(all[r.k@.len() + i].buffer == id);
                    }
                }
                if r.uses(id) {
                    let i = choose|i: int| 0 <= i < all.len() && (#[trigger] all[i]).buffer == id;
                    assert(all[i].ok(c));
                }
            }
            assert forall|id: usize| r.uses(id) implies !#[trigger] a.live.contains(id) by {
                let i = choose|i: int| 0 <= i < all.len() && (#[trigger] all[i]).buffer == id;
                if i < r.k@.len() {
                    assert(!a.live.contains(r.k@[i].buffer));
                } else {
                    assert(!b.live.contains(r.v@[i - r.k@.len()].buffer));
                }
            }
            assert(c.live =~= a.live.union(Set::new(|id: usize| r.uses(id))));
        }
        r
    }
}

/// Whether there is one tensor for each head size, of unspecified contents.
pub open spec fn layers_of(
    s: Seq<Tensor>,
    head_dims: Seq<usize>,
    max_seq: usize,
    n_kv_heads: usize,
    d: DeviceView,
) -> bool {
    &&& s.len() == head_dims.len()
    &&& forall|l: int|
        0 <= l < s.len() ==> (#[trigger] s[l]).shape@ == seq![max_seq, n_kv_heads, head_dims[l]]
            && s[l].dtype == DType::F32 && s[l].in_dev(d) == Term::Unset
}

fn allocate(dev: &mut Device, head_dims: &[usize], max_seq: usize, n_kv_heads: usize) -> (r: Vec<
    Tensor,
>)
    requires
        old(dev)@.wf(),
        forall|l: int|
            0 <= l < head_dims@.len() ==> fits_heads(
                max_seq as int,
                n_kv_heads as int,
                #[trigger] head_dims@[l] as int,
            ),
    ensures
        final(dev)@.wf(),
        layers_of(r@, head_dims@, max_seq, n_kv_heads, final(dev)@),
        separate(r@, final(dev)@),
        forall|l: int| 0 <= l < r@.len() ==> !old(dev)@.live.contains((#[trigger] r@[l]).buffer),
        forall|id: usize|
            final(dev)@.live.contains(id) <==> #[trigger] old(dev)@.live.contains(id) || exists|
                l: int,
            | 0 <= l < r@.len() && (#[trigger] r@[l]).buffer == id,
        same_but(old(dev)@, final(dev)@, Set::empty()),
{
    let ghost a = dev@;
    let mut out: Vec<Tensor> = Vec::new();
    let mut i: usize = 0;
    while i < head_dims.len()
        invariant
            a == old(dev)@,
            dev@.wf(),
            i <= head_dims@.len(),
            forall|l: int|
                0 <= l < head_dims@.len() ==> fits_heads(
                    max_seq as int,
                    n_kv_heads as int,
                    #[trigger] head_dims@[l] as int,
                ),
            layers_of(out@, head_dims@.take(i as int), max_seq, n_kv_heads, dev@),
            separate(out@, dev@),
            forall|l: int| 0 <= l < out@.len() ==> !a.live.contains((#[trigger] out@[l]).buffer),
            forall|id: usize|
                dev@.live.contains(id) <==> #[trigger] a.live.contains(id) || exists|l: int|
                    0 <= l < out@.len() && (#[trigger] out@[l]).buffer == id,
            same_but(a, dev@, Set::empty()),
        decreases head_dims.len() - i,
    {
        let ghost b = dev@;
        let ghost before = out@;
        let shape: [usize; 3] = [max_seq, n_kv_heads, head_dims[i]];
        proof {
            lemma_numel_3(max_seq, n_kv_heads, head_dims@[i as int]);
            assert(shape@ =~= seq![max_seq, n_kv_heads, head_dims@[i as int]]);
            assert(fits_heads(max_seq as int, n_kv_heads as int, head_dims@[i as int] as int));
        }
        let t = Tensor::empty(dev, &shape, DType::F32);
        let ghost id = t.buffer;
        out.push(t);
        proof {
            let c = dev@;
            assert forall|l: int| 0 <= l < out@.len() implies (#[trigger] out@[l]).ok(c)
                && out@[l].in_dev(c) == Term::Unset && out@[l].shape@ == seq![
                max_seq,
                n_kv_heads,
                head_dims@.take(i + 1)[l],
            ] && out@[l].dtype == DType::F32 && !a.live.contains(out@[l].buffer) by {
                if l < before.len() {
                    assert(before[l].ok(b));
                    assert(b.live.contains(before[l].buffer));
                    assert(head_dims@.take(i + 1)[l] == head_dims@.take(i as int)[l]);
                } else {
                    if a.live.contains(id) {
                        assert(b.live.contains(id));
                    }
                }
            }
            assert forall|l: int, m: int| 0 <= l < m < out@.len() implies (#[trigger] out@[l]).buffer
                != (#[trigger] out@[m]).buffer by {
                if m == before.len() {
                    assert(before[l].ok(b));
                } else {
                    assert(before[l].buffer != before[m].buffer);
                }
            }
            assert forall|j: usize|
                c.live.contains(j) <==> #[trigger] a.live.contains(j) || exists|l: int|
                    0 <= l < out@.len() && (#[trigger] out@[l]).buffer == j by {
                if c.live.contains(j) && !a.live.contains(j) {
                    if j == id {
                        assert(out@[before.len() as int].buffer == j);
                    } else {
                        assert(b.live.contains(j));
                        let l = choose|l: int| 0 <= l < before.len() && (#[trigger] before[l]).buffer == j;
                        assert(out@[l].buffer == j);
                    }
                }
                if exists|l: int| 0 <= l < out@.len() && (#[trigger] out@[l]).buffer == j {
                    let l = choose|l: int| 0 <= l < out@.len() && (#[trigger] out@[l]).buffer == j;
                    assert(out@[l].ok(c));
                }
                if a.live.contains(j) {
                    assert(b.live.contains(j));
                }
            }
            assert forall|j: usize|
                #![trigger c.holds(j)]
                #![trigger a.holds(j)]
                a.live.contains(j) implies c.holds(j) == a.holds(j) by {
                assert(b.live.contains(j));
                assert(b.holds(j) == a.holds(j));
            }
        }
        i = i + 1;
    }
    assert(head_dims@.take(i as int) =~= head_dims@);
    out
}

/// The cache of a layer has room for the keys, and for the values, of every head at every position,
/// each number in a place of its own.
pub proof fn lemma_cache_room(
    kv: KvCache,
    head_dims: Seq<usize>,
    max_seq: usize,
    n_kv_heads: usize,
    a: DeviceView,
    b: DeviceView,
    l: int,
    at: (int, int, int),
)
    requires
        kv.allocated(head_dims, max_seq, n_kv_heads, a, b),
        0 <= l < head_dims.len(),
        0 <= at.0 < max_seq,
        0 <= at.1 < n_kv_heads,
        0 <= at.2 < head_dims[l],
    ensures
        kv.k@.len() == head_dims.len(),
        kv.v@.len() == head_dims.len(),
        ({
            let i = (at.0 * n_kv_heads + at.1) * head_dims[l] + at.2;
            &&& 0 <= i
            &&& 4 * (i + 1) <= b.buffers[kv.k@[l].buffer as int].size
            &&& 4 * (i + 1) <= b.buffers[kv.v@[l].buffer as int].size
        }),
        kv.k@[l].buffer != kv.v@[l].buffer,
{
    let all = kv.k@ + kv.v@;
    let (k, v) = (kv.k@[l], kv.v@[l]);
    assert(all[l] == k && all[kv.k@.len() + l] == v);
    assert(k.ok(b) && v.ok(b));
    assert(k.shape@ == seq![max_seq, n_kv_heads, head_dims[l]]);
    assert(v.shape@ == seq![max_seq, n_kv_heads, head_dims[l]]);
    lemma_numel_3(max_seq, n_kv_heads, head_dims[l]);
    lemma_buffer_room(k, b);
    lemma_buffer_room(v, b);
    let (m, h, w) = (max_seq as int, n_kv_heads as int, head_dims[l] as int);
    let row = at.0 * h + at.1;
    assert(0 <= row && row + 1 <= m * h) by (nonlinear_arith)
        requires
            row == at.0 * h + at.1,
            0 <= at.0 < m,
            0 <= at.1 < h,
    ;
    assert(0 <= row * w && row * w + w <= m * h * w) by (nonlinear_arith)
        requires
            0 <= row,
            row + 1 <= m * h,
            0 <= w,
    ;
}

} // verus!
