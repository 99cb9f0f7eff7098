//! Typed handles over the buffers of a device.

use vstd::prelude::*;

use crate::coverage::half_cell;
use crate::error::DType;
use crate::float::{halved, to_half, widened};
use crate::gpu::device::{
    acquired, acquired_id, gained, recycled, same_but, BufferInfo, Device, DeviceView, Usage,
};
use crate::gpu::elements::{value, Number};
use crate::gpu::memory::{Event, Term};
use crate::shape::{count, countable, numel};

verus! {

/// The word that holds the halves nearest to `x[2 * w]` and `x[2 * w + 1]`, the first in the lower
/// half of the word. What is beyond the end counts as zero.
pub open spec fn packed_word(x: Seq<u32>, w: int) -> u32 {
    let lo = halved(x[2 * w]) as int;
    let hi = if 2 * w + 1 < x.len() {
        halved(x[2 * w + 1]) as int
    } else {
        0
    };
    (lo + 0x1_0000 * hi) as u32
}

/// Single-precision codes in the kernels' storage format for half precision: two to a word.
pub open spec fn packed(x: Seq<u32>) -> Seq<u32> {
    Seq::new((x.len() + 1) / 2, |w: int| packed_word(x, w))
}

/// Both halves of a packed word can be read back: the first from its lower half, the second from
/// its upper half.
pub proof fn lemma_packed_halves(x: Seq<u32>, w: int)
    requires
        0 <= w,
        2 * w < x.len(),
    ensures
        packed(x)[w] % 0x1_0000 == halved(x[2 * w]),
        packed(x)[w] / 0x1_0000 == if 2 * w + 1 < x.len() {
            halved(x[2 * w + 1])
        } else {
            0
        },
{
}

/// What a kernel reads as half `i` of packed numbers is number `i`, rounded to 16 bits. There is a
/// half for each number, whatever their count.
pub proof fn lemma_packed_read_back(x: Seq<u32>, i: int)
    requires
        0 <= i < x.len(),
    ensures
        half_cell(Term::Words(packed(x)), i) == Number::Word(widened(halved(x[i]))),
        2 * packed(x).len() >= x.len(),
        2 * packed(x).len() <= x.len() + 1,
{
    reveal(value);
    lemma_packed_halves(x, i / 2);
}

/// Packs single-precision codes into the kernels' storage format for half precision: two to a
/// word, an odd tail padded with zero.
pub fn pack_f16(x: &[u32]) -> (r: Vec<u32>)
    ensures
        r@ == packed(x@),
{
    let mut out: Vec<u32> = Vec::new();
    let mut i: usize = 0;
    let n = x.len();
    while i < n
        invariant
            n == x@.len(),
            i <= n || i == n + 1,
            i == 2 * out@.len(),
            forall|w: int| 0 <= w < out@.len() ==> #[trigger] out@[w] == packed_word(x@, w),
        decreases n - i,
    {
        let lo = to_half(x[i]) as u32;
        let hi = if n - i > 1 {
            to_half(x[i + 1]) as u32
        } else {
            0
        };
        out.push(lo + 0x1_0000 * hi);
        if n - i == 1 {
            assert(out@ =~= packed(x@));
            return out;
        }
        i = i + 2;
    }
    assert(out@ =~= packed(x@));
    out
}

/// The size in bytes of a tensor's buffer: at least one element.
pub open spec fn bytes_of(shape: Seq<usize>, dtype: DType) -> nat {
    if numel(shape) == 0 {
        dtype.bytes()
    } else {
        numel(shape) * dtype.bytes()
    }
}

/// Whether the machine can address the bytes of a tensor.
pub open spec fn addressable(shape: Seq<usize>, dtype: DType) -> bool {
    countable(shape) && numel(shape) * dtype.bytes() <= usize::MAX
}

/// A typed handle over a GPU storage buffer. Owns no host-side copy of the data.
#[derive(Debug)]
pub struct Tensor {
    pub buffer: usize,
    pub shape: Vec<usize>,
    pub dtype: DType,
}

impl Tensor {
    /// Whether the tensor's buffer is in use and of the size of the tensor.
    pub open spec fn ok(self, d: DeviceView) -> bool {
        &&& d.live.contains(self.buffer)
        &&& self.buffer < d.buffers.len()
        &&& d.buffers[self.buffer as int] == (BufferInfo {
            size: bytes_of(self.shape@, self.dtype) as u64,
            usage: Usage::Storage,
        })
        &&& addressable(self.shape@, self.dtype)
    }

    /// What the tensor's buffer holds.
    pub open spec fn in_dev(self, d: DeviceView) -> Term {
        d.holds(self.buffer)
    }

    /// The number of elements.
    pub fn numel(&self) -> (r: usize)
        requires
            countable(self.shape@),
        ensures
            r == numel(self.shape@),
    {
        match count(self.shape.as_slice()) {
            Some(n) => n,
            None => 0,
        }
    }

    /// The number of bytes of the elements.
    pub fn byte_len(&self) -> (r: usize)
        requires
            addressable(self.shape@, self.dtype),
        ensures
            r == numel(self.shape@) * self.dtype.bytes(),
    {
        self.numel() * self.dtype.size()
    }

    fn size_for(shape: &[usize], dtype: DType) -> (r: u64)
        requires
            addressable(shape@, dtype),
        ensures
            r == bytes_of(shape@, dtype),
    {
        let n = match count(shape) {
            Some(n) => n,
            None => 0,
        };
        if n == 0 {
            dtype.size() as u64
        } else {
            (n * dtype.size()) as u64
        }
    }

    /// Allocates a storage buffer (usable as kernel input/output and copyable) whose contents are
    /// unspecified.
    pub fn empty(dev: &mut Device, shape: &[usize], dtype: DType) -> (r: Tensor)
        requires
            old(dev)@.wf(),
            addressable(shape@, dtype),
        ensures
            final(dev)@.wf(),
            r.shape@ == shape@,
            r.dtype == dtype,
            final(dev)@ == acquired(
                old(dev)@,
                (BufferInfo { size: bytes_of(shape@, dtype) as u64, usage: Usage::Storage }),
            ),
            r.buffer == acquired_id(
                old(dev)@,
                (BufferInfo { size: bytes_of(shape@, dtype) as u64, usage: Usage::Storage }),
            ),
            r.ok(final(dev)@),
            r.in_dev(final(dev)@) == Term::Unset,
            gained(old(dev)@, final(dev)@, r.buffer),
    {
        let size = Tensor::size_for(shape, dtype);
        let buffer = dev.acquire_buffer(size, Usage::Storage);
        assert(dev@.live.contains(buffer));
        Tensor { buffer, shape: vstd::slice::slice_to_vec(shape), dtype }
    }

    fn filled(dev: &mut Device, shape: &[usize], dtype: DType, data: &[u32]) -> (r: Tensor)
        requires
            old(dev)@.wf(),
            addressable(shape@, dtype),
            data@.len() == numel(shape@),
            dtype.bytes() == 4,
        ensures
            final(dev)@.wf(),
            r.shape@ == shape@,
            r.dtype == dtype,
            r.buffer == old(dev)@.buffers.len(),
            final(dev)@ == uploaded(old(dev)@, bytes_of(shape@, dtype) as u64, data@),
            r.ok(final(dev)@),
            r.in_dev(final(dev)@) == Term::Words(data@),
            gained(old(dev)@, final(dev)@, r.buffer),
    {
        let size = Tensor::size_for(shape, dtype);
        let buffer = dev.create_with(size, Usage::Storage, data);
        Tensor { buffer, shape: vstd::slice::slice_to_vec(shape), dtype }
    }

    /// Allocates a single-precision tensor and uploads the codes of its elements.
    pub fn from_f32(dev: &mut Device, shape: &[usize], data: &[u32]) -> (r: Tensor)
        requires
            old(dev)@.wf(),
            addressable(shape@, DType::F32),
            data@.len() == numel(shape@),
        ensures
            final(dev)@.wf(),
            r.shape@ == shape@,
            r.dtype == DType::F32,
            r.buffer == old(dev)@.buffers.len(),
            final(dev)@ == uploaded(old(dev)@, bytes_of(shape@, DType::F32) as u64, data@),
            r.ok(final(dev)@),
            r.in_dev(final(dev)@) == Term::Words(data@),
            gained(old(dev)@, final(dev)@, r.buffer),
    {
        Tensor::filled(dev, shape, DType::F32, data)
    }

    /// Allocates an integer tensor (used for packed halves and token ids) and uploads its elements.
    pub fn from_u32(dev: &mut Device, shape: &[usize], data: &[u32]) -> (r: Tensor)
        requires
            old(dev)@.wf(),
            addressable(shape@, DType::U32),
            data@.len() == numel(shape@),
        ensures
            final(dev)@.wf(),
            r.shape@ == shape@,
            r.dtype == DType::U32,
            r.buffer == old(dev)@.buffers.len(),
            final(dev)@ == uploaded(old(dev)@, bytes_of(shape@, DType::U32) as u64, data@),
            r.ok(final(dev)@),
            r.in_dev(final(dev)@) == Term::Words(data@),
            gained(old(dev)@, final(dev)@, r.buffer),
    {
        Tensor::filled(dev, shape, DType::U32, data)
    }

    /// Uploads single-precision codes as halves, two to a word (the kernels' weight storage
    /// format), in an integer tensor with one element for each word.
    pub fn from_f16_packed(dev: &mut Device, logical_shape: &[usize], data: &[u32]) -> (r: Tensor)
        requires
            old(dev)@.wf(),
            data@.len() == numel(logical_shape@),
            4 * packed(data@).len() <= usize::MAX,
        ensures
            final(dev)@.wf(),
            r.shape@ == seq![packed(data@).len() as usize],
            r.dtype == DType::U32,
            r.buffer == old(dev)@.buffers.len(),
            final(dev)@ == uploaded(
                old(dev)@,
                bytes_of(seq![packed(data@).len() as usize], DType::U32) as u64,
                packed(data@),
            ),
            r.ok(final(dev)@),
            r.in_dev(final(dev)@) == Term::Words(packed(data@)),
            gained(old(dev)@, final(dev)@, r.buffer),
    {
        let words = pack_f16(data);
        let shape: [usize; 1] = [words.len()];
        proof {
            lemma_numel_1(words@.len() as usize);
            assert(shape@ =~= seq![packed(data@).len() as usize]);
        }
        Tensor::from_u32(dev, &shape, words.as_slice())
    }

    /// Gives the tensor's buffer back.
    pub fn recycle(self, dev: &mut Device)
        requires
            old(dev)@.wf(),
            self.ok(old(dev)@),
        ensures
            final(dev)@.wf(),
            final(dev)@ == recycled(old(dev)@, self.buffer),
            final(dev)@.live == old(dev)@.live.remove(self.buffer),
            same_but(old(dev)@, final(dev)@, Set::empty()),
    {
        dev.recycle_buffer(self.buffer)
    }
}

/// A device after the host had words written to a new storage buffer.
pub open spec fn uploaded(v: DeviceView, size: u64, words: Seq<u32>) -> DeviceView {
    let id = v.buffers.len() as usize;
    DeviceView {
        buffers: v.buffers.push(BufferInfo { size, usage: Usage::Storage }),
        uploads: v.uploads.push((id, words)),
        live: v.live.insert(id),
        log: v.log.push(Event::Acquire(id)).push(Event::Upload(id, words)),
        ..v
    }
}

/// The number of elements of a shape of one size.
pub proof fn lemma_numel_1(a: usize)
    ensures
        numel(seq![a]) == a,
        countable(seq![a]),
{
    let s = seq![a];
    assert(s.drop_last() =~= Seq::<usize>::empty());
    assert(numel(s.drop_last()) == 1);
    assert(numel(s) == 1 * (a as nat));
    assert(countable(s.drop_last()));
}

/// The number of elements of a shape of two sizes.
pub proof fn lemma_numel_2(a: usize, b: usize)
    ensures
        numel(seq![a, b]) == a * b,
        a * b <= usize::MAX ==> countable(seq![a, b]),
{
    let s = seq![a, b];
    assert(s.drop_last() =~= seq![a]);
    lemma_numel_1(a);
    assert(s.last() == b);
}

/// The number of elements of a shape of three sizes.
pub proof fn lemma_numel_3(a: usize, b: usize, c: usize)
    ensures
        numel(seq![a, b, c]) == a * b * c,
        a * b <= usize::MAX && a * b * c <= usize::MAX ==> countable(seq![a, b, c]),
{
    let s = seq![a, b, c];
    assert(s.drop_last() =~= seq![a, b]);
    lemma_numel_2(a, b);
    assert(s.last() == c);
}

/// A tensor's buffer has room for every element, no more than that, and is never empty; it is made
/// of whole words where the elements are words.
pub proof fn lemma_buffer_room(t: Tensor, d: DeviceView)
    requires
        t.ok(d),
    ensures
        ({
            let size = d.buffers[t.buffer as int].size;
            &&& size > 0
            &&& size >= numel(t.shape@) * t.dtype.bytes()
            &&& numel(t.shape@) > 0 ==> size == numel(t.shape@) * t.dtype.bytes()
            &&& t.dtype != DType::F16 ==> size % 4 == 0 && size >= 4 * numel(t.shape@)
            &&& t.dtype == DType::F16 ==> size >= 2 * numel(t.shape@)
        }),
{
    let n = numel(t.shape@);
    assert(n * t.dtype.bytes() <= usize::MAX);
    if n > 0 {
        assert(n * t.dtype.bytes() > 0) by (nonlinear_arith)
            requires
                n > 0,
                t.dtype.bytes() > 0,
        ;
    }
}

} // verus!
