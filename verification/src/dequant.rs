//! Block dequantization of ggml weight types to 32-bit numbers, as bit patterns.

use vstd::prelude::*;

use crate::bytes::{as_signed8, le16, le32, read16, read32, signed8};
use crate::error::{seen, ErrorView, EyebrowseError, Result};
use crate::float::{minus, subtract, times, times_int, widen, widened};
use crate::text::{cat2, cat3, dec, decimal};

verus! {

/// Elements of a super-block.
pub const QK_K: usize = 256;

/// The 16-bit number at `at`, as a 32-bit one.
pub open spec fn half_at(data: Seq<u8>, at: int) -> u32 {
    widened(le16(data, at))
}

fn read_f16(data: &[u8], off: usize) -> (r: u32)
    requires
        off + 2 <= data@.len(),
    ensures
        r == half_at(data@, off as int),
{
    widen(read16(data, off))
}

/// Element `i` of a run of blocks of 32 signed bytes, each block led by its scale.
pub open spec fn q8_0_element(data: Seq<u8>, i: int) -> u32 {
    let base = 34 * (i / 32);
    times(half_at(data, base), signed8(data[base + 2 + i % 32]))
}

/// The 6-bit scale and minimum of sub-block `j`, packed in twelve bytes from `at` on.
pub open spec fn scale_min(j: int, data: Seq<u8>, at: int) -> (u8, u8) {
    if j < 4 {
        ((data[at + j] % 64) as u8, (data[at + j + 4] % 64) as u8)
    } else {
        (
            (data[at + j + 4] % 16 + 16 * (data[at + j - 4] / 64)) as u8,
            (data[at + j + 4] / 16 + 16 * (data[at + j] / 64)) as u8,
        )
    }
}

/// Element `r` of the super-block of 4-bit quants at `base`: its scaled quant less its scaled
/// minimum.
pub open spec fn q4_k_in_block(data: Seq<u8>, base: int, r: int) -> u32 {
    let j = r / 32;
    let (sc, m) = scale_min(j, data, base + 4);
    let packed = data[base + 16 + 32 * (j / 2) + r % 32];
    let q = if j % 2 == 0 {
        packed % 16
    } else {
        packed / 16
    };
    minus(
        times(times(half_at(data, base), sc as int), q as int),
        times(half_at(data, base + 2), m as int),
    )
}

/// Element `i` of a run of super-blocks of 4-bit quants.
pub open spec fn q4_k_element(data: Seq<u8>, i: int) -> u32 {
    q4_k_in_block(data, 144 * (i / 256), i % 256)
}

/// The power of four that moves the two high bits of quarter `g` to the low end of a byte.
pub open spec fn quarter_unit(g: int) -> int {
    if g == 0 {
        1
    } else if g == 1 {
        4
    } else if g == 2 {
        16
    } else {
        64
    }
}

/// Element `r` of the super-block of 6-bit quants at `base`. Each half of the block holds four
/// quarters of 32; quarter `g` has its low nibbles in the bytes shared with quarter `g + 2` and its
/// two high bits in the bytes shared by all four.
pub open spec fn q6_k_in_block(data: Seq<u8>, base: int, r: int) -> u32 {
    let h = r / 128;
    let g = r % 128 / 32;
    let l = r % 32;
    let packed = data[base + 64 * h + 32 * (g % 2) + l];
    let low = if g < 2 {
        packed % 16
    } else {
        packed / 16
    };
    let high = data[base + 128 + 32 * h + l] as int / quarter_unit(g) % 4;
    let scale = signed8(data[base + 192 + 8 * h + 2 * g + l / 16]);
    times(times(half_at(data, base + 208), scale), low + 16 * high - 32)
}

/// Element `i` of a run of super-blocks of 6-bit quants.
pub open spec fn q6_k_element(data: Seq<u8>, i: int) -> u32 {
    q6_k_in_block(data, 210 * (i / 256), i % 256)
}

/// A run of `n` plain 32-bit numbers.
pub open spec fn plain(data: Seq<u8>, n: nat) -> std::result::Result<Seq<u32>, ErrorView> {
    if data.len() < 4 * n {
        Err(ErrorView::Load("F32 buffer too small"@))
    } else {
        Ok(Seq::new(n, |i: int| le32(data, 4 * i)))
    }
}

/// A run of `n` plain 16-bit numbers.
pub open spec fn halves(data: Seq<u8>, n: nat) -> std::result::Result<Seq<u32>, ErrorView> {
    if data.len() < 2 * n {
        Err(ErrorView::Load("F16 buffer too small"@))
    } else {
        Ok(Seq::new(n, |i: int| half_at(data, 2 * i)))
    }
}

/// `n` elements in blocks of `block` elements and `size` bytes.
pub open spec fn blocks(
    name: Seq<char>,
    block: nat,
    size: nat,
    data: Seq<u8>,
    n: nat,
    element: spec_fn(int) -> u32,
) -> std::result::Result<Seq<u32>, ErrorView> {
    if n % block != 0 {
        Err(ErrorView::Load(name + " n_elems "@ + dec(n) + " not a multiple of "@ + dec(block)))
    } else if data.len() < n / block * size {
        Err(ErrorView::Load(name + " buffer too small"@))
    } else {
        Ok(Seq::new(n, element))
    }
}

/// The `n` weights of the given ggml type that `data` holds.
pub open spec fn dequantized(ggml_type: u32, data: Seq<u8>, n: nat) -> std::result::Result<
    Seq<u32>,
    ErrorView,
> {
    if ggml_type == 0 {
        plain(data, n)
    } else if ggml_type == 1 {
        halves(data, n)
    } else if ggml_type == 8 {
        blocks("Q8_0"@, 32, 34, data, n, |i: int| q8_0_element(data, i))
    } else if ggml_type == 12 {
        blocks("Q4_K"@, 256, 144, data, n, |i: int| q4_k_element(data, i))
    } else if ggml_type == 14 {
        blocks("Q6_K"@, 256, 210, data, n, |i: int| q6_k_element(data, i))
    } else {
        Err(ErrorView::UnsupportedConfig("ggml type "@ + dec(ggml_type as nat)))
    }
}

/// Dequantize `n_elems` weights of the given ggml type to 32-bit numbers.
pub fn dequant(ggml_type: u32, data: &[u8], n_elems: usize) -> (r: Result<Vec<u32>>)
    ensures
        seen(r) == dequantized(ggml_type, data@, n_elems as nat),
{
    match ggml_type {
        0 => dequant_f32(data, n_elems),
        1 => dequant_f16(data, n_elems),
        8 => dequant_q8_0(data, n_elems),
        12 => dequant_q4_k(data, n_elems),
        14 => dequant_q6_k(data, n_elems),
        other => Err(EyebrowseError::UnsupportedConfig(cat2("ggml type ", decimal(other as u64).as_str()))),
    }
}

fn load_error<T>(text: &str) -> (r: Result<T>)
    ensures
        r matches Err(e) && e@ == ErrorView::Load(text@),
{
    Err(EyebrowseError::Load(text.to_owned()))
}

fn dequant_f32(data: &[u8], n_elems: usize) -> (r: Result<Vec<u32>>)
    ensures
        seen(r) == plain(data@, n_elems as nat),
{
    if data.len() / 4 < n_elems {
        return load_error("F32 buffer too small");
    }
    let mut out: Vec<u32> = Vec::new();
    let mut i: usize = 0;
    while i < n_elems
        invariant
            i <= n_elems,
            4 * n_elems <= data@.len(),
            out@ == Seq::new(i as nat, |k: int| le32(data@, 4 * k)),
        decreases n_elems - i,
    {
        assert(data@.len() == data.len());
        out.push(read32(data, i * 4));
        i = i + 1;
        assert(out@ =~= Seq::new(i as nat, |k: int| le32(data@, 4 * k)));
    }
    Ok(out)
}

fn dequant_f16(data: &[u8], n_elems: usize) -> (r: Result<Vec<u32>>)
    ensures
        seen(r) == halves(data@, n_elems as nat),
{
    if data.len() / 2 < n_elems {
        return load_error("F16 buffer too small");
    }
    let mut out: Vec<u32> = Vec::new();
    let mut i: usize = 0;
    while i < n_elems
        invariant
            i <= n_elems,
            2 * n_elems <= data@.len(),
            out@ == Seq::new(i as nat, |k: int| half_at(data@, 2 * k)),
        decreases n_elems - i,
    {
        assert(data@.len() == data.len());
        out.push(read_f16(data, i * 2));
        i = i + 1;
        assert(out@ =~= Seq::new(i as nat, |k: int| half_at(data@, 2 * k)));
    }
    Ok(out)
}

/// The number of whole blocks of `n` elements, where there are such and `len` bytes hold them.
fn block_count(name: &str, block: usize, size: usize, len: usize, n: usize) -> (r: Result<usize>)
    requires
        block > 0,
        size > 0,
    ensures
        match r {
            Ok(b) => n == b * block && b * size <= len,
            Err(e) => e@ == (if n % block != 0 {
                ErrorView::Load(
                    name@ + " n_elems "@ + dec(n as nat) + " not a multiple of "@ + dec(block as nat),
                )
            } else {
                ErrorView::Load(name@ + " buffer too small"@)
            }) && (n % block == 0 ==> len < n / block * size),
        },
{
    if n % block != 0 {
        let head = cat3(name, " n_elems ", decimal(n as u64).as_str());
        let text = cat3(head.as_str(), " not a multiple of ", decimal(block as u64).as_str());
        return load_error(text.as_str());
    }
    let count = n / block;
    proof {
        vstd::arithmetic::div_mod::lemma_fundamental_div_mod(n as int, block as int);
        vstd::arithmetic::mul::lemma_mul_is_commutative(count as int, block as int);
    }
    if len / size < count {
        proof {
            assert(len < count * size) by (nonlinear_arith)
                requires
                    len / size < count,
                    size > 0,
            ;
        }
        return load_error(cat2(name, " buffer too small").as_str());
    }
    proof {
        assert(count * size <= len) by (nonlinear_arith)
            requires
                count <= len / size,
                size > 0,
        ;
    }
    Ok(count)
}

fn dequant_q8_0(data: &[u8], n_elems: usize) -> (r: Result<Vec<u32>>)
    ensures
        seen(r) == blocks("Q8_0"@, 32, 34, data@, n_elems as nat, |i: int| q8_0_element(data@, i)),
{
    let n_blocks = match block_count("Q8_0", 32, 34, data.len(), n_elems) {
        Ok(b) => b,
        Err(e) => return Err(e),
    };
    let ghost f = |i: int| q8_0_element(data@, i);
    let mut out: Vec<u32> = Vec::new();
    let mut b: usize = 0;
    while b < n_blocks
        invariant
            b <= n_blocks,
            34 * n_blocks <= data@.len(),
            f == (|i: int| q8_0_element(data@, i)),
            out@ == Seq::new((32 * b) as nat, f),
        decreases n_blocks - b,
    {
        assert(data@.len() == data.len());
        let base = b * 34;
        let d = read_f16(data, base);
        let mut t: usize = 0;
        while t < 32
            invariant
                t <= 32,
                base == 34 * b,
                b < n_blocks,
                34 * n_blocks <= data@.len() <= usize::MAX,
                d == half_at(data@, base as int),
                f == (|i: int| q8_0_element(data@, i)),
                out@ == Seq::new((32 * b + t) as nat, f),
            decreases 32 - t,
        {
            let q = as_signed8(data[base + 2 + t]);
            out.push(times_int(d, q));
            assert((32 * b + t) / 32 == b as int && (32 * b + t) % 32 == t as int);
            t = t + 1;
            assert(out@ =~= Seq::new((32 * b + t) as nat, f));
        }
        b = b + 1;
    }
    Ok(out)
}

/// Unpack the 6-bit scale/min pair for sub-block `j`.
pub fn get_scale_min_k4(j: usize, scales: &[u8]) -> (r: (u8, u8))
    requires
        j < 8,
        scales@.len() >= 12,
    ensures
        r == scale_min(j as int, scales@, 0),
        r.0 < 64,
        r.1 < 64,
{
    if j < 4 {
        (scales[j] % 64, scales[j + 4] % 64)
    } else {
        let sc = scales[j + 4] % 16 + 16 * (scales[j - 4] / 64);
        let m = scales[j + 4] / 16 + 16 * (scales[j] / 64);
        (sc, m)
    }
}

fn dequant_q4_k(data: &[u8], n_elems: usize) -> (r: Result<Vec<u32>>)
    ensures
        seen(r) == blocks("Q4_K"@, 256, 144, data@, n_elems as nat, |i: int| q4_k_element(data@, i)),
{
    let n_blocks = match block_count("Q4_K", QK_K, 144, data.len(), n_elems) {
        Ok(b) => b,
        Err(e) => return Err(e),
    };
    let ghost f = |i: int| q4_k_element(data@, i);
    let mut out: Vec<u32> = Vec::new();
    let mut b: usize = 0;
    while b < n_blocks
        invariant
            b <= n_blocks,
            144 * n_blocks <= data@.len(),
            f == (|i: int| q4_k_element(data@, i)),
            out@ == Seq::new((256 * b) as nat, f),
        decreases n_blocks - b,
    {
        assert(data@.len() == data.len());
        let base = b * 144;
        let d = read_f16(data, base);
        let dmin = read_f16(data, base + 2);
        let scales = &data[base + 4..base + 16];
        let mut j: usize = 0;
        while j < 8
            invariant
                j <= 8,
                base == 144 * b,
                b < n_blocks,
                144 * n_blocks <= data@.len() <= usize::MAX,
                scales@ == data@.subrange(base + 4, base + 16),
                d == half_at(data@, base as int),
                dmin == half_at(data@, base + 2),
                f == (|i: int| q4_k_element(data@, i)),
                out@ == Seq::new((256 * b + 32 * j) as nat, f),
            decreases 8 - j,
        {
            let (sc, m) = get_scale_min_k4(j, scales);
            assert((sc, m) == scale_min(j as int, data@, base + 4));
            let d_sc = times_int(d, sc as i32);
            let d_min = times_int(dmin, m as i32);
            let qbase = base + 16 + 32 * (j / 2);
            let mut t: usize = 0;
            while t < 32
                invariant
                    t <= 32,
                    j < 8,
                    base == 144 * b,
                    b < n_blocks,
                    144 * n_blocks <= data@.len() <= usize::MAX,
                    qbase == base + 16 + 32 * (j / 2),
                    (sc, m) == scale_min(j as int, data@, base + 4),
                    d_sc == times(half_at(data@, base as int), sc as int),
                    d_min == times(half_at(data@, base + 2), m as int),
                    f == (|i: int| q4_k_element(data@, i)),
                    out@ == Seq::new((256 * b + 32 * j + t) as nat, f),
                decreases 32 - t,
            {
                let packed = data[qbase + t];
                let q = if j % 2 == 0 {
                    packed % 16
                } else {
                    packed / 16
                };
                out.push(subtract(times_int(d_sc, q as i32), d_min));
                proof {
                    let i = 256 * b + 32 * j + t;
                    assert(i / 256 == b as int && i % 256 == 32 * j + t);
                    assert((32 * j + t) / 32 == j as int && (32 * j + t) % 32 == t as int);
                }
                t = t + 1;
                assert(out@ =~= Seq::new((256 * b + 32 * j + t) as nat, f));
            }
            j = j + 1;
        }
        b = b + 1;
    }
    Ok(out)
}

fn q6_k_value(data: &[u8], base: usize, d: u32, r: usize) -> (v: u32)
    requires
        base + 210 <= data@.len(),
        r < 256,
        d == half_at(data@, base + 208),
    ensures
        v == q6_k_in_block(data@, base as int, r as int),
{
    assert(data@.len() == data.len());
    let h = r / 128;
    let g = r % 128 / 32;
    let l = r % 32;
    let packed = data[base + 64 * h + 32 * (g % 2) + l];
    let low = if g < 2 {
        packed % 16
    } else {
        packed / 16
    };
    let unit: u8 = match g {
        0 => 1,
        1 => 4,
        2 => 16,
        _ => 64,
    };
    let high = data[base + 128 + 32 * h + l] / unit % 4;
    let scale = as_signed8(data[base + 192 + 8 * h + 2 * g + l / 16]);
    times_int(times_int(d, scale), low as i32 + 16 * high as i32 - 32)
}

fn dequant_q6_k(data: &[u8], n_elems: usize) -> (r: Result<Vec<u32>>)
    ensures
        seen(r) == blocks("Q6_K"@, 256, 210, data@, n_elems as nat, |i: int| q6_k_element(data@, i)),
{
    let n_blocks = match block_count("Q6_K", QK_K, 210, data.len(), n_elems) {
        Ok(b) => b,
        Err(e) => return Err(e),
    };
    let ghost f = |i: int| q6_k_element(data@, i);
    let mut out: Vec<u32> = Vec::new();
    let mut b: usize = 0;
    while b < n_blocks
        invariant
            b <= n_blocks,
            210 * n_blocks <= data@.len(),
            f == (|i: int| q6_k_element(data@, i)),
            out@ == Seq::new((256 * b) as nat, f),
        decreases n_blocks - b,
    {
        assert(data@.len() == data.len());
        let base = b * 210;
        let d = read_f16(data, base + 208);
        let mut r: usize = 0;
        while r < 256
            invariant
                r <= 256,
                base == 210 * b,
                b < n_blocks,
                210 * n_blocks <= data@.len() <= usize::MAX,
                d == half_at(data@, base + 208),
                f == (|i: int| q6_k_element(data@, i)),
                out@ == Seq::new((256 * b + r) as nat, f),
            decreases 256 - r,
        {
            out.push(q6_k_value(data, base, d, r));
            assert((256 * b + r) / 256 == b as int && (256 * b + r) % 256 == r as int);
            r = r + 1;
            assert(out@ =~= Seq::new((256 * b + r) as nat, f));
        }
        b = b + 1;
    }
    Ok(out)
}

} // verus!
