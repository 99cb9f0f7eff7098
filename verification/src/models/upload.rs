//! Decodes raw weight bytes (single, half or brain float, little-endian, row-major) and uploads
//! them, either as packed halves (for matmul/embedding weights) or in single precision (for
//! RMSNorm weights).

use vstd::prelude::*;

use crate::bytes::{le16, le32, lemma_word_read_back, read16, read32, words_bytes};
use crate::coverage::half_cell;
use crate::error::{seen, DType, ErrorView, EyebrowseError, Result};
use crate::float::{brain_to_single, brain_widened, halved, widen, widened};
use crate::gpu::device::{gained, Device, DeviceView};
use crate::gpu::elements::{value, Number};
use crate::gpu::memory::Term;
use crate::gpu::tensor::{addressable, lemma_packed_read_back, packed, Tensor};
use crate::packing::{half_in, scale_of};
use crate::rounding::{exact, finite, finite_half, lemma_widened, not_a_number};
use crate::shape::{count, numel};
use crate::source::{RawDType, RawTensor, RawView};
use crate::text::cat3;

verus! {

/// The name of an element type.
pub open spec fn dtype_name(d: RawDType) -> Seq<char> {
    match d {
        RawDType::F32 => "F32"@,
        RawDType::F16 => "F16"@,
        RawDType::BF16 => "BF16"@,
        RawDType::U8 => "U8"@,
        RawDType::I8 => "I8"@,
        RawDType::I32 => "I32"@,
        RawDType::I64 => "I64"@,
    }
}

fn name_of(d: RawDType) -> (r: &'static str)
    ensures
        r@ == dtype_name(d),
{
    match d {
        RawDType::F32 => "F32",
        RawDType::F16 => "F16",
        RawDType::BF16 => "BF16",
        RawDType::U8 => "U8",
        RawDType::I8 => "I8",
        RawDType::I32 => "I32",
        RawDType::I64 => "I64",
    }
}

/// The single-precision codes of a raw float tensor. Integer types are refused.
pub open spec fn floats(raw: RawView) -> std::result::Result<Seq<u32>, ErrorView> {
    match raw.dtype {
        RawDType::F32 => Ok(Seq::new(raw.bytes.len() / 4, |i: int| le32(raw.bytes, 4 * i))),
        RawDType::F16 => Ok(
            Seq::new(raw.bytes.len() / 2, |i: int| widened(le16(raw.bytes, 2 * i))),
        ),
        RawDType::BF16 => Ok(
            Seq::new(raw.bytes.len() / 2, |i: int| brain_widened(le16(raw.bytes, 2 * i))),
        ),
        d => Err(
            ErrorView::UnsupportedConfig("weight dtype "@ + dtype_name(d) + " is not a float"@),
        ),
    }
}

/// Decodes a raw float tensor's bytes to single-precision codes. Integer dtypes are rejected.
pub fn raw_to_f32(raw: &RawTensor) -> (r: Result<Vec<u32>>)
    ensures
        seen(r) == floats(raw@),
{
    let n = raw.bytes.len();
    let mut out: Vec<u32> = Vec::new();
    match raw.dtype {
        RawDType::F32 => {
            let mut i: usize = 0;
            while i < n / 4
                invariant
                    n == raw.bytes@.len(),
                    i <= n / 4,
                    out@.len() == i,
                    forall|k: int| 0 <= k < i ==> #[trigger] out@[k] == le32(raw.bytes@, 4 * k),
                decreases n / 4 - i,
            {
                out.push(read32(raw.bytes.as_slice(), 4 * i));
                i = i + 1;
            }
            assert(out@ =~= Seq::new(raw@.bytes.len() / 4, |i: int| le32(raw@.bytes, 4 * i)));
            Ok(out)
        },
        RawDType::F16 => {
            let mut i: usize = 0;
            while i < n / 2
                invariant
                    n == raw.bytes@.len(),
                    i <= n / 2,
                    out@.len() == i,
                    forall|k: int|
                        0 <= k < i ==> #[trigger] out@[k] == widened(le16(raw.bytes@, 2 * k)),
                decreases n / 2 - i,
            {
                out.push(widen(read16(raw.bytes.as_slice(), 2 * i)));
                i = i + 1;
            }
            assert(out@ =~= Seq::new(
                raw@.bytes.len() / 2,
                |i: int| widened(le16(raw@.bytes, 2 * i)),
            ));
            Ok(out)
        },
        RawDType::BF16 => {
            let mut i: usize = 0;
            while i < n / 2
                invariant
                    n == raw.bytes@.len(),
                    i <= n / 2,
                    out@.len() == i,
                    forall|k: int|
                        0 <= k < i ==> #[trigger] out@[k] == brain_widened(
                            le16(raw.bytes@, 2 * k),
                        ),
                decreases n / 2 - i,
            {
                out.push(brain_to_single(read16(raw.bytes.as_slice(), 2 * i)));
                i = i + 1;
            }
            assert(out@ =~= Seq::new(
                raw@.bytes.len() / 2,
                |i: int| brain_widened(le16(raw@.bytes, 2 * i)),
            ));
            Ok(out)
        },
        d => Err(
            EyebrowseError::UnsupportedConfig(
                cat3("weight dtype ", name_of(d), " is not a float"),
            ),
        ),
    }
}

/// The error for a tensor that the machine cannot address.
pub open spec fn too_large() -> ErrorView {
    ErrorView::OutOfMemory("tensor too large to address"@)
}

/// The words that a raw tensor is uploaded as in packed halves.
pub open spec fn half_words(raw: RawView) -> std::result::Result<Seq<u32>, ErrorView> {
    match floats(raw) {
        Err(e) => Err(e),
        Ok(x) => if 4 * packed(x).len() > usize::MAX {
            Err(too_large())
        } else {
            Ok(packed(x))
        },
    }
}

/// The shape that a raw tensor is uploaded with in packed halves: a row of words.
pub open spec fn half_shape(raw: RawView) -> Seq<usize> {
    seq![half_words(raw)->Ok_0.len() as usize]
}

/// The words that a raw tensor is uploaded as in single precision.
pub open spec fn single_words(raw: RawView) -> std::result::Result<Seq<u32>, ErrorView> {
    match floats(raw) {
        Err(e) => Err(e),
        Ok(x) => if !addressable(raw.shape, DType::F32) {
            Err(too_large())
        } else {
            Ok(x)
        },
    }
}

/// Whether an upload gave what it had to: a new tensor of this shape and element type that holds
/// these words, or the error and a device that is as it was.
pub open spec fn uploads_as(
    a: DeviceView,
    b: DeviceView,
    r: Result<Tensor>,
    want: std::result::Result<Seq<u32>, ErrorView>,
    shape: Seq<usize>,
    dtype: DType,
) -> bool {
    match (r, want) {
        (Ok(t), Ok(words)) => gained(a, b, t.buffer) && t.ok(b) && t.in_dev(b) == Term::Words(words)
            && t.shape@ == shape && t.dtype == dtype,
        (Err(e), Err(x)) => e@ == x && b == a,
        _ => false,
    }
}

proof fn lemma_float_count(raw: RawView)
    requires
        raw.wf(),
    ensures
        floats(raw) matches Ok(x) ==> x.len() == numel(raw.shape),
{
    assert(numel(raw.shape) * 4 / 4 == numel(raw.shape)) by (nonlinear_arith);
    assert(numel(raw.shape) * 2 / 2 == numel(raw.shape)) by (nonlinear_arith);
}

fn refuse_large() -> (r: EyebrowseError)
    ensures
        r@ == too_large(),
{
    EyebrowseError::OutOfMemory("tensor too large to address".to_owned())
}

/// Uploads a raw float tensor as packed halves (the kernels' weight storage). Returns an integer
/// tensor.
pub fn upload_f16(dev: &mut Device, raw: &RawTensor) -> (r: Result<Tensor>)
    requires
        old(dev)@.wf(),
        raw@.wf(),
    ensures
        final(dev)@.wf(),
        uploads_as(old(dev)@, final(dev)@, r, half_words(raw@), half_shape(raw@), DType::U32),
{
    let f = match raw_to_f32(raw) {
        Ok(v) => v,
        Err(e) => return Err(e),
    };
    proof {
        lemma_float_count(raw@);
    }
    let words = f.len() / 2 + f.len() % 2;
    if words > usize::MAX / 4 {
        return Err(refuse_large());
    }
    Ok(Tensor::from_f16_packed(dev, raw.shape.as_slice(), f.as_slice()))
}

/// Uploads a raw float tensor in single precision (used for small RMSNorm weight vectors).
pub fn upload_f32(dev: &mut Device, raw: &RawTensor) -> (r: Result<Tensor>)
    requires
        old(dev)@.wf(),
        raw@.wf(),
    ensures
        final(dev)@.wf(),
        uploads_as(old(dev)@, final(dev)@, r, single_words(raw@), raw@.shape, DType::F32),
{
    let f = match raw_to_f32(raw) {
        Ok(v) => v,
        Err(e) => return Err(e),
    };
    proof {
        lemma_float_count(raw@);
    }
    match count(raw.shape.as_slice()) {
        Some(n) => {
            if n > usize::MAX / 4 {
                return Err(refuse_large());
            }
        },
        None => return Err(refuse_large()),
    }
    Ok(Tensor::from_f32(dev, raw.shape.as_slice(), f.as_slice()))
}

/// What the bytes of a float tensor stand for: a weight for every element of the shape; words are
/// taken as they lie, halves keep their value and brain floats are the upper halves of words.
/// Integers are no weights.
pub proof fn lemma_weights(raw: RawView, i: int)
    requires
        raw.wf(),
        0 <= i < numel(raw.shape),
    ensures
        floats(raw) is Ok <==> raw.dtype == RawDType::F32 || raw.dtype == RawDType::F16 || raw.dtype
            == RawDType::BF16,
        floats(raw) is Ok ==> floats(raw)->Ok_0.len() == numel(raw.shape),
        raw.dtype == RawDType::F32 ==> floats(raw)->Ok_0[i] == raw.bytes[4 * i] + 0x100
            * raw.bytes[4 * i + 1] + 0x1_0000 * raw.bytes[4 * i + 2] + 0x100_0000 * raw.bytes[4 * i
            + 3],
        raw.dtype == RawDType::F16 ==> ({
            let h = half_in(raw.bytes, 2 * i);
            let w = floats(raw)->Ok_0[i];
            finite_half(h) ==> finite(w) && exact(w) == scale_of(h)
        }),
        raw.dtype == RawDType::BF16 ==> ({
            let b = half_in(raw.bytes, 2 * i);
            let w = floats(raw)->Ok_0[i];
            &&& b % 0x8000 <= 0x7F80 ==> w == 0x1_0000 * b
            &&& b % 0x8000 > 0x7F80 ==> not_a_number(w)
        }),
{
    lemma_float_count(raw);
    if raw.dtype == RawDType::BF16 {
        let b = half_in(raw.bytes, 2 * i);
        assert(b == le16(raw.bytes, 2 * i));
        assert(b % 0x8000 > 0x7F80 ==> (b | 0x40) % 0x8000 > 0x7F80) by (bit_vector);
    }
    if raw.dtype == RawDType::F16 {
        let h = half_in(raw.bytes, 2 * i);
        assert(h == le16(raw.bytes, 2 * i));
        if finite_half(h) {
            lemma_widened(h);
        }
    }
}

/// What the kernels read of a tensor that was uploaded in halves: each weight of the tensor, at
/// the place it has in the tensor, rounded to 16 bits.
pub proof fn lemma_halves_uploaded(raw: RawView, i: int)
    requires
        half_words(raw) is Ok,
        0 <= i < floats(raw)->Ok_0.len(),
    ensures
        half_cell(Term::Words(half_words(raw)->Ok_0), i) == Number::Word(
            widened(halved(floats(raw)->Ok_0[i])),
        ),
{
    lemma_packed_read_back(floats(raw)->Ok_0, i);
}

/// What the kernels read of a tensor that was uploaded in single precision: its weights.
pub proof fn lemma_singles_uploaded(raw: RawView, i: int)
    requires
        single_words(raw) is Ok,
        0 <= i < floats(raw)->Ok_0.len(),
    ensures
        value(Term::Words(single_words(raw)->Ok_0), i) == Number::Word(floats(raw)->Ok_0[i]),
{
    reveal(value);
}

/// The floats of a tensor of a GGUF file are the dequantized ones.
pub proof fn lemma_gguf_floats(values: Seq<u32>, shape: Seq<usize>)
    ensures
        floats(RawView { bytes: words_bytes(values), dtype: RawDType::F32, shape }) == Ok::<
            Seq<u32>,
            ErrorView,
        >(values),
{
    let raw = RawView { bytes: words_bytes(values), dtype: RawDType::F32, shape };
    assert(raw.bytes.len() / 4 == values.len());
    assert forall|i: int| 0 <= i < values.len() implies #[trigger] values[i] == le32(
        raw.bytes,
        4 * i,
    ) by {
        lemma_word_read_back(values, i);
    }
    assert(floats(raw)->Ok_0 =~= values);
}

} // verus!
