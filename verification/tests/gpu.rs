//! Runs what the library records on a host that stands in for a GPU: buffers of words, written and
//! run through kernels in the order of each batch. Buffers start out as garbage.

use std::collections::HashMap;
use std::sync::Arc;

use eyebrowse::config::config_from_hf_json;
use eyebrowse::error::{DType, EyebrowseError};
use eyebrowse::generation::{too_long, Generation, Step};
use eyebrowse::gguf::{hf_to_gguf, GgufSource, GGUF_MAGIC};
use eyebrowse::gpu::device::{Batch, Device, Usage, MAX_POOLED_BYTES};
use eyebrowse::gpu::kernel::{binding_layout, copy_range, dispatch, groups_for, uniform_u32, Binding};
use eyebrowse::gpu::memory::{Groups, Kernel, Op};
use eyebrowse::gpu::pipeline::Pipelines;
use eyebrowse::gpu::recorder::Recorder;
use eyebrowse::gpu::tensor::{pack_f16, Tensor};
use eyebrowse::kernels::{
    argmax, attn_decode, attn_prefill, embedding_f16, geglu, kv_write, linear_f16w, matmul,
    matmul_f16w, mul_scalar, rmsnorm, rope, softmax, swiglu,
};
use eyebrowse::models::decoder::{DecoderNumbers, DecoderOpts};
use eyebrowse::models::gemma4::{check_early, check_late, kind_of, GemmaNumbers, LayerKind};
use eyebrowse::models::model::{token_of, Block};
use eyebrowse::models::qwen3::Qwen3Model;
use eyebrowse::models::upload::{raw_to_f32, upload_f16, upload_f32};
use eyebrowse::models::{check_numbers, family_of, load_model, Family, Model, Numbers};
use eyebrowse::nn::attention::Attention;
use eyebrowse::nn::kv_cache::KvCache;
use eyebrowse::nn::layers::{Activation, Embedding, Linear, Mlp, RmsNorm};
use eyebrowse::nn::rope::Rope;
use eyebrowse::source::{RawDType, RawTensor, SafeTensorsSource, WeightSource};

// ---- a host without a GPU ----

struct Host {
    buffers: Vec<Vec<u32>>,
}

fn bits(x: &[f32]) -> Vec<u32> {
    x.iter().map(|v| v.to_bits()).collect()
}

fn floats(x: &[u32]) -> Vec<f32> {
    x.iter().map(|v| f32::from_bits(*v)).collect()
}

fn half_at(words: &[u32], i: usize) -> f32 {
    let word = words[i / 2];
    let lane = if i % 2 == 0 { word & 0xFFFF } else { word >> 16 };
    half::f16::from_bits(lane as u16).to_f32()
}

impl Host {
    fn new() -> Host {
        Host { buffers: Vec::new() }
    }

    fn perform(&mut self, dev: &Device, batch: Batch) {
        while self.buffers.len() < dev.count() {
            let info = dev.info(self.buffers.len());
            self.buffers.push(vec![0xFFFF_FFFF; (info.size / 4) as usize]);
        }
        for (id, words) in batch.uploads {
            self.buffers[id][..words.len()].copy_from_slice(&words);
        }
        for op in batch.ops {
            match op {
                Op::Copy { src, src_bytes, dst, dst_bytes, bytes } => {
                    let from = (src_bytes / 4) as usize;
                    let to = (dst_bytes / 4) as usize;
                    let n = (bytes / 4) as usize;
                    let part = self.buffers[src][from..from + n].to_vec();
                    self.buffers[dst][to..to + n].copy_from_slice(&part);
                }
                Op::Dispatch { kernel, storage, uniform, groups } => {
                    self.run(kernel, &storage, &uniform, groups)
                }
            }
        }
    }

    fn run(&mut self, kernel: Kernel, storage: &[usize], uniform: &[usize], groups: Groups) {
        let bound: Vec<Vec<u32>> =
            storage.iter().chain(uniform).map(|id| self.buffers[*id].clone()).collect();
        let f = |b: usize, i: usize| f32::from_bits(bound[b][i]);
        let u = |b: usize, i: usize| bound[b][i] as usize;
        let threads = groups.x as usize * 64;
        let target = match kernel {
            Kernel::KvWrite => 0,
            Kernel::MulScalar | Kernel::Softmax | Kernel::Argmax => 1,
            Kernel::AttnPrefill { .. } | Kernel::AttnDecode { .. } | Kernel::Rope => 3,
            _ => 2,
        };
        let mut out = bound[target].clone();
        match kernel {
            Kernel::Add => {
                for i in 0..threads.min(out.len()) {
                    out[i] = (f(0, i) + f(1, i)).to_bits();
                }
            }
            Kernel::Swiglu => {
                for i in 0..threads.min(u(3, 0)) {
                    let g = f(0, i);
                    out[i] = (g / (1.0 + (-g).exp()) * f(1, i)).to_bits();
                }
            }
            Kernel::Geglu => {
                for i in 0..threads.min(u(3, 0)) {
                    out[i] = (gelu(f(0, i)) * f(1, i)).to_bits();
                }
            }
            Kernel::MulScalar => {
                for i in 0..threads.min(u(2, 0)) {
                    out[i] = (f(0, i) * f(2, 1)).to_bits();
                }
            }
            Kernel::EmbeddingF16 => {
                let (n, dim) = (u(3, 0), u(3, 1));
                for idx in 0..threads.min(n * dim) {
                    let flat = u(0, idx / dim) * dim + idx % dim;
                    out[idx] = half_at(&bound[1], flat).to_bits();
                }
            }
            Kernel::KvWrite => {
                let (hkv, count, hd, dst) = (u(2, 0), u(2, 1), u(2, 2), u(2, 4));
                for idx in 0..threads.min(hkv * count * hd) {
                    let (d, tmp) = (idx % hd, idx / hd);
                    let (head, c) = (tmp % hkv, tmp / hkv);
                    out[((dst + c) * hkv + head) * hd + d] = bound[1][idx];
                }
            }
            Kernel::LinearF16w | Kernel::MatmulF32 | Kernel::MatmulF16w => {
                let (m, k, n) = (u(3, 0), u(3, 1), u(3, 2));
                for row in 0..(groups.y as usize * 16).min(m) {
                    for col in 0..(groups.x as usize * 16).min(n) {
                        let mut acc = 0.0f32;
                        for p in 0..k {
                            let w = match kernel {
                                Kernel::LinearF16w => half_at(&bound[1], col * k + p),
                                Kernel::MatmulF16w => half_at(&bound[1], p * n + col),
                                _ => f(1, p * n + col),
                            };
                            acc += f(0, row * k + p) * w;
                        }
                        out[row * n + col] = acc.to_bits();
                    }
                }
            }
            Kernel::AttnPrefill { head_dim: hd } => {
                let (h, hkv, s, scale) = (u(4, 0), u(4, 1), u(4, 2), f(4, 3));
                for idx in 0..threads.min(h * s) {
                    attend(&bound, &mut out, idx / h, idx % h, idx / h, h, hkv, hd, scale);
                }
            }
            Kernel::AttnDecode { head_dim: hd } => {
                let (h, hkv, pos, scale) = (u(4, 0), u(4, 1), u(4, 2), f(4, 4));
                for head in 0..threads.min(h) {
                    attend(&bound, &mut out, 0, head, pos, h, hkv, hd, scale);
                }
            }
            Kernel::Softmax => {
                let cols = u(2, 1);
                for row in 0..groups.x as usize {
                    let x: Vec<f32> = (0..cols).map(|i| f(0, row * cols + i)).collect();
                    let top = x.iter().fold(-3.0e38f32, |a, b| a.max(*b));
                    let sum: f32 = x.iter().map(|v| (v - top).exp()).sum();
                    for i in 0..cols {
                        out[row * cols + i] = ((x[i] - top).exp() / sum).to_bits();
                    }
                }
            }
            Kernel::RmsNorm => {
                let (dim, eps) = (u(3, 1), f(3, 2));
                for row in 0..groups.x as usize {
                    let base = row * dim;
                    let ss: f32 = (0..dim).map(|i| f(0, base + i) * f(0, base + i)).sum();
                    let inv = 1.0 / (ss / dim as f32 + eps).sqrt();
                    for i in 0..dim {
                        out[base + i] = (f(0, base + i) * inv * f(1, i)).to_bits();
                    }
                }
            }
            Kernel::Rope => {
                let (seq, n_heads, hd, base_pos) = (u(4, 0), u(4, 1), u(4, 2), u(4, 3));
                let half = hd / 2;
                for idx in 0..threads.min(seq * n_heads * half) {
                    let (p, tmp) = (idx % half, idx / half);
                    let (head, s) = (tmp % n_heads, tmp / n_heads);
                    let base = (s * n_heads + head) * hd;
                    let (c, sn) = (f(1, (s + base_pos) * half + p), f(2, (s + base_pos) * half + p));
                    let (x1, x2) = (f(0, base + p), f(0, base + half + p));
                    out[base + p] = (x1 * c - x2 * sn).to_bits();
                    out[base + half + p] = (x2 * c + x1 * sn).to_bits();
                }
            }
            Kernel::Argmax => {
                let vocab = u(2, 0);
                let mut best = 0;
                for i in 1..vocab {
                    if f(0, i) > f(0, best) {
                        best = i;
                    }
                }
                out[0] = best as u32;
            }
        }
        self.buffers[storage[target]] = out;
    }

    fn words(&self, t: &Tensor) -> Vec<u32> {
        self.buffers[t.buffer][..t.numel()].to_vec()
    }

    fn read(&self, t: &Tensor) -> Vec<f32> {
        floats(&self.words(t))
    }

    fn bytes(&self, t: &Tensor) -> Vec<u8> {
        self.words(t).iter().flat_map(|w| w.to_le_bytes()).collect()
    }

    /// Ends a batch and performs it.
    fn submit(&mut self, rec: Recorder) -> Device {
        let (dev, batch) = rec.submit();
        self.perform(&dev, batch);
        dev
    }
}

#[allow(clippy::too_many_arguments)]
fn attend(
    bound: &[Vec<u32>],
    out: &mut [u32],
    row: usize,
    head: usize,
    last: usize,
    h: usize,
    hkv: usize,
    hd: usize,
    scale: f32,
) {
    let kvh = head / (h / hkv);
    let qbase = (row * h + head) * hd;
    let f = |b: usize, i: usize| f32::from_bits(bound[b][i]);
    let mut acc = vec![0.0f32; hd];
    let (mut m, mut l) = (-3.0e38f32, 0.0f32);
    for j in 0..=last {
        let kbase = (j * hkv + kvh) * hd;
        let mut s = 0.0f32;
        for d in 0..hd {
            s += f(0, qbase + d) * f(1, kbase + d);
        }
        s *= scale;
        let top = m.max(s);
        let (corr, p) = ((m - top).exp(), (s - top).exp());
        l = l * corr + p;
        for d in 0..hd {
            acc[d] = acc[d] * corr + p * f(2, kbase + d);
        }
        m = top;
    }
    for d in 0..hd {
        out[qbase + d] = (acc[d] / l).to_bits();
    }
}

fn gelu(x: f32) -> f32 {
    let inner = 0.797_884_6 * (x + 0.044_715 * x * x * x);
    0.5 * x * (1.0 + inner.tanh())
}

// ---- references ----

fn rel_l2(a: &[f32], b: &[f32]) -> f32 {
    assert_eq!(a.len(), b.len());
    let (mut num, mut den) = (0.0f64, 0.0f64);
    for (x, y) in a.iter().zip(b) {
        let d = (*x as f64) - (*y as f64);
        num += d * d;
        den += (*y as f64) * (*y as f64);
    }
    (num.sqrt() / (den.sqrt() + 1e-12)) as f32
}

fn prng(n: usize, seed: u64) -> Vec<f32> {
    let mut s = seed.wrapping_add(0x9E37_79B9_7F4A_7C15);
    let mut out = Vec::with_capacity(n);
    for _ in 0..n {
        s ^= s << 13;
        s ^= s >> 7;
        s ^= s << 17;
        let u = (s >> 11) as f64 / (1u64 << 53) as f64;
        out.push((u * 2.0 - 1.0) as f32);
    }
    out
}

fn ramp(n: usize, off: f32, step: f32) -> Vec<f32> {
    (0..n).map(|i| off + i as f32 * step).collect()
}

fn round_f16(x: &[f32]) -> Vec<f32> {
    x.iter().map(|v| half::f16::from_f32(*v).to_f32()).collect()
}

fn cpu_matmul(a: &[f32], b: &[f32], m: usize, k: usize, n: usize) -> Vec<f32> {
    let mut c = vec![0.0f32; m * n];
    for i in 0..m {
        for j in 0..n {
            c[i * n + j] = (0..k).map(|p| a[i * k + p] * b[p * n + j]).sum();
        }
    }
    c
}

fn cpu_linear(x: &[f32], w: &[f32], m: usize, in_f: usize, out_f: usize) -> Vec<f32> {
    let mut y = vec![0.0f32; m * out_f];
    for i in 0..m {
        for o in 0..out_f {
            y[i * out_f + o] = (0..in_f).map(|k| x[i * in_f + k] * w[o * in_f + k]).sum();
        }
    }
    y
}

fn cpu_rmsnorm(x: &[f32], w: &[f32], rows: usize, dim: usize, eps: f32) -> Vec<f32> {
    let mut out = vec![0.0f32; rows * dim];
    for r in 0..rows {
        let row = &x[r * dim..(r + 1) * dim];
        let ss: f32 = row.iter().map(|v| v * v).sum();
        let inv = 1.0 / ((ss / dim as f32) + eps).sqrt();
        for i in 0..dim {
            out[r * dim + i] = row[i] * inv * w[i];
        }
    }
    out
}

fn cpu_rope(
    x: &[f32],
    cos: &[f32],
    sin: &[f32],
    seq: usize,
    n_heads: usize,
    hd: usize,
    base: usize,
) -> Vec<f32> {
    let half = hd / 2;
    let mut out = vec![0.0f32; x.len()];
    for s in 0..seq {
        for head in 0..n_heads {
            let at = (s * n_heads + head) * hd;
            for p in 0..half {
                let (c, sn) = (cos[(s + base) * half + p], sin[(s + base) * half + p]);
                out[at + p] = x[at + p] * c - x[at + half + p] * sn;
                out[at + half + p] = x[at + half + p] * c + x[at + p] * sn;
            }
        }
    }
    out
}

/// Attention of rows over the first `base + 1`, `base + 2`, ... of `k` and `v`, in two passes.
#[allow(clippy::too_many_arguments)]
fn cpu_attention(
    q: &[f32],
    k: &[f32],
    v: &[f32],
    rows: usize,
    base: usize,
    h: usize,
    hkv: usize,
    hd: usize,
    scale: f32,
) -> Vec<f32> {
    let mut out = vec![0.0f32; rows * h * hd];
    for i in 0..rows {
        for head in 0..h {
            let kvh = head / (h / hkv);
            let at = (i * h + head) * hd;
            let scores: Vec<f32> = (0..=base + i)
                .map(|j| {
                    let kb = (j * hkv + kvh) * hd;
                    (0..hd).map(|d| q[at + d] * k[kb + d]).sum::<f32>() * scale
                })
                .collect();
            let top = scores.iter().fold(f32::NEG_INFINITY, |a, b| a.max(*b));
            let weights: Vec<f32> = scores.iter().map(|s| (s - top).exp()).collect();
            let sum: f32 = weights.iter().sum();
            for (j, w) in weights.iter().enumerate() {
                let vb = (j * hkv + kvh) * hd;
                for d in 0..hd {
                    out[at + d] += w / sum * v[vb + d];
                }
            }
        }
    }
    out
}

fn silu(x: f32) -> f32 {
    x / (1.0 + (-x).exp())
}

/// Tables of the angles `s * theta^(-2k / hd)`, the first `active` pairs of each row turning.
fn rope_tables(seq: usize, hd: usize, theta: f32, active: usize) -> (Vec<f32>, Vec<f32>) {
    let half = hd / 2;
    let (mut cos, mut sin) = (vec![1.0f32; seq * half], vec![0.0f32; seq * half]);
    for s in 0..seq {
        for k in 0..half.min(active) {
            let angle = s as f64 * (theta as f64).powf(-2.0 * k as f64 / hd as f64);
            cos[s * half + k] = angle.cos() as f32;
            sin[s * half + k] = angle.sin() as f32;
        }
    }
    (cos, sin)
}

fn tensor(d: &mut Device, shape: &[usize], data: &[f32]) -> Tensor {
    Tensor::from_f32(d, shape, &bits(data))
}

fn packed(d: &mut Device, data: &[f32]) -> Tensor {
    let words = pack_f16(&bits(data));
    Tensor::from_u32(d, &[words.len()], &words)
}

// ---- buffers ----

#[test]
fn empty_recycles_buffers_through_the_pool() {
    let mut dev = Device::new();
    let size = (64 * DType::F32.size()) as u64;
    assert_eq!(dev.pooled(size, Usage::Storage), 0, "fresh device pool is empty");

    // Allocating then giving back returns one buffer to the pool.
    Tensor::empty(&mut dev, &[64], DType::F32).recycle(&mut dev);
    assert_eq!(dev.pooled(size, Usage::Storage), 1, "drop recycles");

    // The next same-size allocation reuses it (pool drains)...
    let t = Tensor::empty(&mut dev, &[64], DType::F32);
    assert_eq!(dev.pooled(size, Usage::Storage), 0, "empty reuses a pooled buffer");
    assert_eq!(t.buffer, 0);
    assert_eq!(dev.count(), 1);
    // ...and giving it back returns it again.
    t.recycle(&mut dev);
    assert_eq!(dev.pooled(size, Usage::Storage), 1, "recycled again");
}

#[test]
fn host_initialized_tensors_do_not_draw_from_the_pool() {
    let mut dev = Device::new();
    let size = (4 * DType::F32.size()) as u64;

    // Seed the pool with one recyclable buffer of this size.
    Tensor::empty(&mut dev, &[4], DType::F32).recycle(&mut dev);
    assert_eq!(dev.pooled(size, Usage::Storage), 1);

    // `from_f32` must allocate fresh (never pull): the pooled buffer stays put.
    let t = tensor(&mut dev, &[4], &[1.0, 2.0, 3.0, 4.0]);
    assert_eq!(dev.pooled(size, Usage::Storage), 1, "from_f32 does not drain the pool");
    assert_eq!(t.buffer, 1);
}

#[test]
fn the_pool_matches_size_and_usage_exactly() {
    let mut dev = Device::new();
    Tensor::empty(&mut dev, &[64], DType::F32).recycle(&mut dev);
    assert_eq!(dev.pooled(256, Usage::Uniform), 0);
    assert_eq!(Tensor::empty(&mut dev, &[63], DType::F32).buffer, 1);
    assert_eq!(Tensor::empty(&mut dev, &[64], DType::U32).buffer, 0);
}

#[test]
fn the_last_buffer_given_back_is_handed_out_first() {
    let mut dev = Device::new();
    let a = Tensor::empty(&mut dev, &[8], DType::F32);
    let b = Tensor::empty(&mut dev, &[8], DType::F32);
    let (x, y) = (a.buffer, b.buffer);
    b.recycle(&mut dev);
    a.recycle(&mut dev);
    assert_eq!(Tensor::empty(&mut dev, &[8], DType::F32).buffer, x);
    assert_eq!(Tensor::empty(&mut dev, &[8], DType::F32).buffer, y);
}

#[test]
fn large_buffers_are_freed_instead_of_kept() {
    let mut dev = Device::new();
    let n = (MAX_POOLED_BYTES / 4) as usize;
    Tensor::empty(&mut dev, &[n], DType::F32).recycle(&mut dev);
    assert_eq!(dev.pooled(MAX_POOLED_BYTES, Usage::Storage), 1);
    Tensor::empty(&mut dev, &[n + 1], DType::F32).recycle(&mut dev);
    assert_eq!(dev.pooled(MAX_POOLED_BYTES + 4, Usage::Storage), 0);
    assert_eq!(dev.take_released(), vec![1]);
    assert!(dev.take_released().is_empty());
    assert_eq!(Tensor::empty(&mut dev, &[n + 1], DType::F32).buffer, 2);
}

#[test]
fn tensors_have_at_least_one_element_of_room() {
    let mut dev = Device::new();
    let t = Tensor::empty(&mut dev, &[0, 3], DType::F16);
    assert_eq!(t.numel(), 0);
    assert_eq!(t.byte_len(), 0);
    assert_eq!(dev.info(t.buffer).size, 2);
    let t = Tensor::empty(&mut dev, &[2, 3], DType::F32);
    assert_eq!((t.numel(), t.byte_len()), (6, 24));
}

#[test]
fn uniform_buffers_are_padded() {
    let mut dev = Device::new();
    let a = uniform_u32(&mut dev, &[1, 2, 3]);
    let b = uniform_u32(&mut dev, &[1, 2, 3, 4, 5]);
    assert_eq!(dev.info(a).size, 16);
    assert_eq!(dev.info(b).size, 32);
    assert_eq!(dev.info(a).usage, Usage::Uniform);
    let batch = dev.take_batch();
    assert_eq!(batch.uploads[0], (a, vec![1, 2, 3]));
    assert!(batch.ops.is_empty());
}

#[test]
fn bindings_are_storage_first_and_then_uniform() {
    assert_eq!(
        binding_layout(2, 1),
        vec![
            Binding { index: 0, usage: Usage::Storage },
            Binding { index: 1, usage: Usage::Storage },
            Binding { index: 2, usage: Usage::Uniform },
        ]
    );
}

#[test]
fn kernels_have_keys_of_their_own() {
    assert_eq!(Kernel::Add.key(), "add");
    assert_eq!(Kernel::MatmulF32.key(), "matmul_f32");
    assert_eq!(Kernel::AttnPrefill { head_dim: 128 }.key(), "attn_prefill_hd128");
    assert_eq!(Kernel::AttnDecode { head_dim: 8 }.key(), "attn_decode_hd8");
}

#[test]
fn pipelines_are_created_once() {
    let mut p = Pipelines::new();
    assert_eq!(p.pipeline(Kernel::Add, 3, 0), (0, true));
    assert_eq!(p.pipeline(Kernel::AttnDecode { head_dim: 64 }, 4, 1), (1, true));
    assert_eq!(p.pipeline(Kernel::AttnDecode { head_dim: 128 }, 4, 1), (2, true));
    assert_eq!(p.pipeline(Kernel::Add, 3, 0), (0, false));
    assert_eq!(p.pipeline(Kernel::AttnDecode { head_dim: 64 }, 4, 1), (1, false));
    assert_eq!(p.pipeline(Kernel::Rope, 3, 1), (3, true));
}

#[test]
fn groups_cover_all_items() {
    assert_eq!(groups_for(0, 64), 0);
    assert_eq!(groups_for(64, 64), 1);
    assert_eq!(groups_for(65, 64), 2);
    assert_eq!(groups_for(u32::MAX, 64), 0x400_0000);
}

#[test]
fn pack_f16_pairs_halves() {
    assert_eq!(pack_f16(&bits(&[1.0, -2.0, 0.5])), vec![0xC000_3C00, 0x0000_3800]);
    assert!(pack_f16(&[]).is_empty());
    let x = prng(33, 21);
    let words = pack_f16(&bits(&x));
    for (i, v) in round_f16(&x).iter().enumerate() {
        assert_eq!(half_at(&words, i), *v);
    }
}

#[test]
fn from_f16_packed_uploads_words() {
    let mut dev = Device::new();
    let mut host = Host::new();
    let t = Tensor::from_f16_packed(&mut dev, &[3], &bits(&[1.0, 2.0, 3.0]));
    assert_eq!(t.shape, vec![2]);
    assert_eq!(t.dtype, DType::U32);
    let batch = dev.take_batch();
    host.perform(&dev, batch);
    assert_eq!(host.words(&t), vec![0x4000_3C00, 0x4200]);
}

#[test]
fn roundtrip() {
    let mut d = Device::new();
    let mut host = Host::new();
    let data = vec![1.0f32, 2.0, 3.0, 4.0, 5.0, 6.0];
    let t = tensor(&mut d, &[2, 3], &data);
    let batch = d.take_batch();
    host.perform(&d, batch);
    assert_eq!(host.read(&t), data);
}

#[test]
fn add_works() {
    let mut d = Device::new();
    let mut host = Host::new();
    let a = tensor(&mut d, &[6], &[1.0, 2.0, 3.0, 4.0, 5.0, 6.0]);
    let b = tensor(&mut d, &[6], &[10.0, 20.0, 30.0, 40.0, 50.0, 60.0]);
    let out = Tensor::empty(&mut d, &[6], DType::F32);
    let mut rec = Recorder::new(d);
    eyebrowse::gpu::kernel::add(&mut rec, &a, &b, &out);
    host.submit(rec);
    assert_eq!(host.read(&out), vec![11.0, 22.0, 33.0, 44.0, 55.0, 66.0]);
}

#[test]
fn writes_of_a_batch_come_before_its_work() {
    let mut d = Device::new();
    let mut host = Host::new();
    let a = tensor(&mut d, &[2], &[1.0, 2.0]);
    let out = Tensor::empty(&mut d, &[2], DType::F32);
    let mut rec = Recorder::new(d);
    eyebrowse::gpu::kernel::add(&mut rec, &a, &a, &out);
    let ids = rec.from_u32(&[2], &[7, 8]);
    let (d, batch) = rec.submit();
    assert_eq!(batch.uploads.len(), 2);
    assert_eq!(batch.ops.len(), 1);
    host.perform(&d, batch);
    assert_eq!(host.read(&out), vec![2.0, 4.0]);
    assert_eq!(host.words(&ids), vec![7, 8]);
}

#[test]
fn copies_move_elements() {
    let mut d = Device::new();
    let mut host = Host::new();
    let a = tensor(&mut d, &[4], &[1.0, 2.0, 3.0, 4.0]);
    let b = tensor(&mut d, &[3], &[0.0, 0.0, 0.0]);
    let mut rec = Recorder::new(d);
    copy_range(&mut rec, &a, &b, 2, 1, 2);
    assert_eq!(rec.device().count(), 2);
    host.submit(rec);
    assert_eq!(host.read(&b), vec![0.0, 3.0, 4.0]);
}

#[test]
fn dispatches_are_recorded_in_order() {
    let mut d = Device::new();
    let a = Tensor::empty(&mut d, &[1], DType::F32);
    let b = Tensor::empty(&mut d, &[1], DType::F32);
    let mut rec = Recorder::new(d);
    let groups = Groups { x: 1, y: 2, z: 3 };
    dispatch(&mut rec, Kernel::Softmax, vec![a.buffer, b.buffer], groups);
    dispatch(&mut rec, Kernel::Add, vec![a.buffer, a.buffer, b.buffer], groups);
    let (_, batch) = rec.submit();
    let kernels: Vec<Kernel> = batch
        .ops
        .iter()
        .map(|op| match op {
            Op::Dispatch { kernel, groups: g, uniform, .. } => {
                assert_eq!(*g, groups);
                assert!(uniform.is_empty());
                *kernel
            }
            Op::Copy { .. } => unreachable!(),
        })
        .collect();
    assert_eq!(kernels, vec![Kernel::Softmax, Kernel::Add]);
}

// ---- kernels ----

#[test]
fn attn_prefill_matches_cpu() {
    let mut d = Device::new();
    let mut host = Host::new();
    let (h, hkv, s, hd) = (2usize, 1usize, 5usize, 8usize);
    let q = ramp(h * s * hd, -0.5, 0.011);
    let k = ramp(hkv * s * hd, -0.3, 0.007);
    let v = ramp(hkv * s * hd, 0.2, 0.013);
    let qt = tensor(&mut d, &[s, h, hd], &q);
    let kt = tensor(&mut d, &[s, hkv, hd], &k);
    let vt = tensor(&mut d, &[s, hkv, hd], &v);
    let ot = Tensor::empty(&mut d, &[s, h, hd], DType::F32);
    let scale = 1.0 / (hd as f32).sqrt();
    let mut rec = Recorder::new(d);
    attn_prefill(&mut rec, &qt, &kt, &vt, &ot, h, hkv, s, hd, scale.to_bits());
    host.submit(rec);
    let want = cpu_attention(&q, &k, &v, s, 0, h, hkv, hd, scale);
    assert!(rel_l2(&host.read(&ot), &want) < 1e-4, "rel_l2 too high");
}

#[test]
fn attn_decode_matches_cpu() {
    let mut d = Device::new();
    let mut host = Host::new();
    let (h, hkv, hd, max_seq, pos) = (4usize, 2usize, 8usize, 16usize, 5usize);
    let q = ramp(h * hd, -0.4, 0.02);
    let kc = ramp(hkv * max_seq * hd, -0.2, 0.005);
    let vc = ramp(hkv * max_seq * hd, 0.1, 0.009);
    let qt = tensor(&mut d, &[h, hd], &q);
    let kt = tensor(&mut d, &[max_seq, hkv, hd], &kc);
    let vt = tensor(&mut d, &[max_seq, hkv, hd], &vc);
    let ot = Tensor::empty(&mut d, &[h, hd], DType::F32);
    let scale = 1.0 / (hd as f32).sqrt();
    let mut rec = Recorder::new(d);
    attn_decode(&mut rec, &qt, &kt, &vt, &ot, h, hkv, pos, hd, max_seq, scale.to_bits());
    host.submit(rec);
    let want = cpu_attention(&q, &kc, &vc, 1, pos, h, hkv, hd, scale);
    assert!(rel_l2(&host.read(&ot), &want) < 1e-4, "rel_l2 too high");
}

fn product(
    m: usize,
    k: usize,
    n: usize,
    a: &[f32],
    b: &[f32],
    half: bool,
) -> Vec<f32> {
    let mut d = Device::new();
    let mut host = Host::new();
    let at = tensor(&mut d, &[m, k], a);
    let bt = if half { packed(&mut d, b) } else { tensor(&mut d, &[k, n], b) };
    let ct = Tensor::empty(&mut d, &[m, n], DType::F32);
    let mut rec = Recorder::new(d);
    if half {
        matmul_f16w(&mut rec, &at, &bt, &ct, m, k, n);
    } else {
        matmul(&mut rec, &at, &bt, &ct, m, k, n);
    }
    host.submit(rec);
    host.read(&ct)
}

#[test]
fn matmul_f32_matches_cpu() {
    let (m, k, n) = (3usize, 4usize, 5usize);
    let a: Vec<f32> = (0..m * k).map(|i| i as f32 * 0.1 - 0.3).collect();
    let b: Vec<f32> = (0..k * n).map(|i| i as f32 * 0.07 - 0.5).collect();
    let got = product(m, k, n, &a, &b, false);
    let want = cpu_matmul(&a, &b, m, k, n);
    assert!(rel_l2(&got, &want) < 1e-4, "got {got:?} want {want:?}");
}

#[test]
fn matmul_f32_non_multiple_dims() {
    let (m, k, n) = (17usize, 33usize, 19usize);
    let a: Vec<f32> = (0..m * k).map(|i| ((i * 7) % 13) as f32 * 0.05).collect();
    let b: Vec<f32> = (0..k * n).map(|i| ((i * 5) % 11) as f32 * 0.03).collect();
    let got = product(m, k, n, &a, &b, false);
    let want = cpu_matmul(&a, &b, m, k, n);
    assert!(rel_l2(&got, &want) < 1e-4);
}

#[test]
fn matmul_f16w_matches_cpu() {
    let (m, k, n) = (5usize, 8usize, 6usize);
    let a: Vec<f32> = (0..m * k).map(|i| i as f32 * 0.02 - 0.1).collect();
    let b: Vec<f32> = (0..k * n).map(|i| i as f32 * 0.03 - 0.2).collect();
    let got = product(m, k, n, &a, &b, true);
    let want = cpu_matmul(&a, &round_f16(&b), m, k, n);
    assert!(rel_l2(&got, &want) < 2e-3, "got {got:?} want {want:?}");
}

#[test]
fn linear_f16w_matches_cpu() {
    let mut d = Device::new();
    let mut host = Host::new();
    let (m, in_f, out_f) = (5usize, 33usize, 7usize); // in not a multiple of 16
    let x: Vec<f32> = (0..m * in_f).map(|i| i as f32 * 0.01 - 0.2).collect();
    let w: Vec<f32> = (0..out_f * in_f).map(|i| i as f32 * 0.005 - 0.3).collect();
    let xt = tensor(&mut d, &[m, in_f], &x);
    let wt = packed(&mut d, &w);
    let ct = Tensor::empty(&mut d, &[m, out_f], DType::F32);
    let mut rec = Recorder::new(d);
    linear_f16w(&mut rec, &xt, &wt, &ct, m, in_f, out_f);
    host.submit(rec);
    let got = host.read(&ct);
    let want = cpu_linear(&x, &round_f16(&w), m, in_f, out_f);
    assert!(rel_l2(&got, &want) < 2e-3, "got {got:?} want {want:?}");
}

#[test]
fn swiglu_matches_cpu() {
    let mut d = Device::new();
    let mut host = Host::new();
    let n = 100usize;
    let gate: Vec<f32> = (0..n).map(|i| i as f32 * 0.05 - 2.0).collect();
    let up: Vec<f32> = (0..n).map(|i| i as f32 * 0.02 - 1.0).collect();
    let gt = tensor(&mut d, &[n], &gate);
    let ut = tensor(&mut d, &[n], &up);
    let ot = Tensor::empty(&mut d, &[n], DType::F32);
    let mut rec = Recorder::new(d);
    swiglu(&mut rec, &gt, &ut, &ot, n);
    host.submit(rec);
    let want: Vec<f32> = (0..n)
        .map(|i| {
            let g = gate[i];
            (g / (1.0 + (-g).exp())) * up[i]
        })
        .collect();
    assert!(rel_l2(&host.read(&ot), &want) < 1e-5);
}

#[test]
fn geglu_and_mul_scalar_cover_all_elements() {
    let mut d = Device::new();
    let mut host = Host::new();
    let n = 70usize;
    let (gate, up) = (prng(n, 1), prng(n, 2));
    let gt = tensor(&mut d, &[n], &gate);
    let ut = tensor(&mut d, &[n], &up);
    let ot = Tensor::empty(&mut d, &[n], DType::F32);
    let st = Tensor::empty(&mut d, &[n], DType::F32);
    let mut rec = Recorder::new(d);
    geglu(&mut rec, &gt, &ut, &ot, n);
    mul_scalar(&mut rec, &ot, &st, n, 2.5f32.to_bits());
    host.submit(rec);
    let want: Vec<f32> = (0..n).map(|i| gelu(gate[i]) * up[i] * 2.5).collect();
    assert!(rel_l2(&host.read(&st), &want) < 1e-6);
}

#[test]
fn embedding_gathers_rows() {
    let mut d = Device::new();
    let mut host = Host::new();
    let (vocab, dim) = (4usize, 6usize);
    let table: Vec<f32> = (0..vocab * dim).map(|i| i as f32 * 0.1 - 1.0).collect();
    let ids = [2u32, 0u32, 3u32];
    let n = ids.len();
    let idt = Tensor::from_u32(&mut d, &[n], &ids);
    let tt = packed(&mut d, &table);
    let ot = Tensor::empty(&mut d, &[n, dim], DType::F32);
    let mut rec = Recorder::new(d);
    embedding_f16(&mut rec, &idt, &tt, &ot, n, dim);
    host.submit(rec);
    let table16 = round_f16(&table);
    let mut want = vec![0.0f32; n * dim];
    for (t, &id) in ids.iter().enumerate() {
        for j in 0..dim {
            want[t * dim + j] = table16[id as usize * dim + j];
        }
    }
    assert!(rel_l2(&host.read(&ot), &want) < 1e-6);
}

#[test]
fn kv_write_places_rows() {
    let mut d = Device::new();
    let mut host = Host::new();
    let (hkv, hd, max_seq) = (2usize, 4usize, 8usize);
    let cache = vec![0.0f32; max_seq * hkv * hd];
    let ct = tensor(&mut d, &[max_seq, hkv, hd], &cache);
    // write 1 position (seq-major src [1, hkv, hd]) at dst=3
    let src: Vec<f32> = (0..hkv * hd).map(|i| i as f32 + 1.0).collect();
    let st = tensor(&mut d, &[1, hkv, hd], &src);
    let mut rec = Recorder::new(d);
    kv_write(&mut rec, &ct, &st, hkv, 1, hd, max_seq, 3);
    host.submit(rec);
    let got = host.read(&ct);
    // cache position 3 (for both heads) should equal src; position 0 stays zero.
    for head in 0..hkv {
        for d_ in 0..hd {
            assert_eq!(got[(3 * hkv + head) * hd + d_], src[head * hd + d_]);
        }
    }
    assert_eq!(got[0], 0.0);
}

#[test]
fn rmsnorm_rmsnorm_matches_cpu() {
    let mut d = Device::new();
    let mut host = Host::new();
    let (rows, dim) = (3usize, 320usize);
    let eps = 1e-6f32;
    let x: Vec<f32> = (0..rows * dim).map(|i| ((i % 17) as f32) * 0.05 - 0.4).collect();
    let w: Vec<f32> = (0..dim).map(|i| 1.0 + (i as f32) * 0.001).collect();
    let xt = tensor(&mut d, &[rows, dim], &x);
    let wt = tensor(&mut d, &[dim], &w);
    let ot = Tensor::empty(&mut d, &[rows, dim], DType::F32);
    let mut rec = Recorder::new(d);
    rmsnorm(&mut rec, &xt, &wt, &ot, rows, dim, eps.to_bits());
    host.submit(rec);
    let want = cpu_rmsnorm(&x, &w, rows, dim, eps);
    assert!(rel_l2(&host.read(&ot), &want) < 1e-4, "rel_l2 too high");
}

#[test]
fn rope_matches_cpu() {
    let mut d = Device::new();
    let mut host = Host::new();
    let (seq, n_heads, hd) = (4usize, 2usize, 8usize);
    let (cos, sin) = rope_tables(seq, hd, 10000.0, hd);
    let x: Vec<f32> = (0..seq * n_heads * hd).map(|i| (i as f32) * 0.03 - 0.5).collect();
    let xt = tensor(&mut d, &[seq, n_heads, hd], &x);
    let ct = tensor(&mut d, &[seq, hd / 2], &cos);
    let st = tensor(&mut d, &[seq, hd / 2], &sin);
    let ot = Tensor::empty(&mut d, &[seq, n_heads, hd], DType::F32);
    let mut rec = Recorder::new(d);
    rope(&mut rec, &xt, &ct, &st, &ot, seq, n_heads, hd, 0);
    host.submit(rec);
    let want = cpu_rope(&x, &cos, &sin, seq, n_heads, hd, 0);
    assert!(rel_l2(&host.read(&ot), &want) < 1e-5, "rel_l2 too high");
}

#[test]
fn argmax_finds_max() {
    let mut d = Device::new();
    let mut host = Host::new();
    let vocab = 1000usize;
    let mut logits: Vec<f32> = (0..vocab).map(|i| (i as f32 * 0.001).sin()).collect();
    logits[731] = 5.0; // unique max
    let lt = tensor(&mut d, &[vocab], &logits);
    let ot = Tensor::empty(&mut d, &[1], DType::U32);
    let mut rec = Recorder::new(d);
    argmax(&mut rec, &lt, &ot, vocab);
    host.submit(rec);
    assert_eq!(token_of(&host.bytes(&ot)), 731);
}

#[test]
fn softmax_matches_cpu() {
    let mut d = Device::new();
    let mut host = Host::new();
    let (rows, cols) = (4usize, 300usize);
    let x: Vec<f32> = (0..rows * cols).map(|i| ((i % 23) as f32) * 0.1 - 1.0).collect();
    let xt = tensor(&mut d, &[rows, cols], &x);
    let ot = Tensor::empty(&mut d, &[rows, cols], DType::F32);
    let mut rec = Recorder::new(d);
    softmax(&mut rec, &xt, &ot, rows, cols);
    host.submit(rec);
    let mut want = vec![0.0f32; rows * cols];
    for r in 0..rows {
        let row = &x[r * cols..(r + 1) * cols];
        let sum: f64 = row.iter().map(|v| (*v as f64).exp()).sum();
        for c in 0..cols {
            want[r * cols + c] = ((row[c] as f64).exp() / sum) as f32;
        }
    }
    assert!(rel_l2(&host.read(&ot), &want) < 1e-5, "rel_l2 too high");
}

// ---- layers ----

#[test]
fn linear_matches_cpu() {
    let mut d = Device::new();
    let mut host = Host::new();
    let (m, in_f, out_f) = (4usize, 8usize, 6usize);
    let x = prng(m * in_f, 1);
    let w = prng(out_f * in_f, 2);
    let xt = tensor(&mut d, &[m, in_f], &x);
    let lin = Linear::new(packed(&mut d, &w), in_f, out_f);
    let mut rec = Recorder::new(d);
    let out = lin.forward(&mut rec, &xt, m);
    host.submit(rec);
    let got = host.read(&out);
    let want = cpu_linear(&x, &round_f16(&w), m, in_f, out_f);
    assert!(rel_l2(&got, &want) < 2e-3, "rel_l2 = {}", rel_l2(&got, &want));
}

#[test]
fn tests_rmsnorm_matches_cpu() {
    let mut d = Device::new();
    let mut host = Host::new();
    let (rows, dim, eps) = (5usize, 16usize, 1e-6f32);
    let x = prng(rows * dim, 3);
    let w = prng(dim, 4);
    let xt = tensor(&mut d, &[rows, dim], &x);
    let rms = RmsNorm::new(tensor(&mut d, &[dim], &w), eps.to_bits(), dim);
    let mut rec = Recorder::new(d);
    let out = rms.forward(&mut rec, &xt, rows);
    host.submit(rec);
    let got = host.read(&out);
    let want = cpu_rmsnorm(&x, &w, rows, dim, eps);
    assert!(rel_l2(&got, &want) < 1e-4, "rel_l2 = {}", rel_l2(&got, &want));
}

#[test]
fn embedding_matches_cpu() {
    let mut d = Device::new();
    let mut host = Host::new();
    let (vocab, dim, n) = (10usize, 8usize, 4usize);
    let table = prng(vocab * dim, 5);
    let ids = [3u32, 0, 9, 5];
    let emb = Embedding::new(packed(&mut d, &table), vocab, dim);
    let ids_t = Tensor::from_u32(&mut d, &[n], &ids);
    let mut rec = Recorder::new(d);
    let out = emb.forward(&mut rec, &ids_t, n);
    host.submit(rec);
    let got = host.read(&out);
    let table16 = round_f16(&table);
    let mut want = vec![0.0f32; n * dim];
    for (row, &id) in ids.iter().enumerate() {
        let src = id as usize * dim;
        want[row * dim..row * dim + dim].copy_from_slice(&table16[src..src + dim]);
    }
    assert!(rel_l2(&got, &want) < 2e-3, "rel_l2 = {}", rel_l2(&got, &want));
}

#[test]
fn mlp_matches_cpu() {
    let mut d = Device::new();
    let mut host = Host::new();
    let (rows, hidden, inter) = (3usize, 8usize, 16usize);
    let x = prng(rows * hidden, 6);
    let wg = prng(inter * hidden, 7);
    let wu = prng(inter * hidden, 8);
    let wd = prng(hidden * inter, 9);
    let mlp = Mlp::new(
        Linear::new(packed(&mut d, &wg), hidden, inter),
        Linear::new(packed(&mut d, &wu), hidden, inter),
        Linear::new(packed(&mut d, &wd), inter, hidden),
    );
    assert_eq!(mlp.activation, Activation::Swiglu);
    let xt = tensor(&mut d, &[rows, hidden], &x);
    let mut rec = Recorder::new(d);
    let out = mlp.forward(&mut rec, &xt, rows);
    host.submit(rec);
    let got = host.read(&out);
    let g = cpu_linear(&x, &round_f16(&wg), rows, hidden, inter);
    let u = cpu_linear(&x, &round_f16(&wu), rows, hidden, inter);
    let h: Vec<f32> = g.iter().zip(u.iter()).map(|(a, b)| silu(*a) * *b).collect();
    let want = cpu_linear(&h, &round_f16(&wd), rows, inter, hidden);
    assert!(rel_l2(&got, &want) < 2e-3, "rel_l2 = {}", rel_l2(&got, &want));
}

#[test]
fn rope_build_tables() {
    let mut d = Device::new();
    let mut host = Host::new();
    let (max_seq, hd, theta) = (8usize, 4usize, 10000.0f32);
    let (c, s) = rope_tables(max_seq, hd, theta, hd);
    let rope = Rope::build(&mut d, max_seq, hd, &bits(&c), &bits(&s));
    let batch = d.take_batch();
    host.perform(&d, batch);
    let half = hd / 2;
    assert_eq!(rope.cos.shape, vec![max_seq, half]);
    let cos = host.read(&rope.cos);
    let sin = host.read(&rope.sin);

    // Row 0: angle == 0 for all k, so cos == 1, sin == 0.
    for k in 0..half {
        assert!((cos[k] - 1.0).abs() < 1e-6, "cos[0,{k}] = {}", cos[k]);
        assert!(sin[k].abs() < 1e-6, "sin[0,{k}] = {}", sin[k]);
    }

    // A nonzero row matches a hand CPU computation of angle = s * theta^(-2k/hd).
    let s = 3usize;
    for k in 0..half {
        let inv_freq = (theta as f64).powf(-(2.0 * k as f64) / hd as f64);
        let angle = s as f64 * inv_freq;
        assert!((cos[s * half + k] - angle.cos() as f32).abs() < 1e-5);
        assert!((sin[s * half + k] - angle.sin() as f32).abs() < 1e-5);
    }
}

#[test]
fn new_per_layer_sizes_each_layer() {
    let mut dev = Device::new();
    let cache = KvCache::new_per_layer(&mut dev, &[16, 32], 8, 2);
    assert_eq!(cache.k[0].shape, vec![8, 2, 16]);
    assert_eq!(cache.k[1].shape, vec![8, 2, 32]);
    assert_eq!(cache.v[0].shape, vec![8, 2, 16]);
    assert_eq!(cache.v[1].shape, vec![8, 2, 32]);
    assert_eq!(cache.head_dim, 16);
    assert_eq!(KvCache::new_per_layer(&mut dev, &[], 8, 2).head_dim, 0);
}

/// The key end-to-end check: decode fed one token at a time must agree with prefill at the
/// last position, proving cache layout + rope base_pos + the decode path match prefill.
#[test]
fn prefill_decode_consistency() {
    let mut d = Device::new();
    let mut host = Host::new();
    let hidden = 16usize;
    let n_heads = 4usize;
    let n_kv_heads = 2usize;
    let head_dim = 4usize;
    let seq = 3usize;
    let max_seq = 8usize;
    let eps = 1e-6f32.to_bits();
    let q_dim = n_heads * head_dim;
    let kv_dim = n_kv_heads * head_dim;

    let attn = Attention {
        q_proj: Linear::new(packed(&mut d, &prng(q_dim * hidden, 11)), hidden, q_dim),
        k_proj: Linear::new(packed(&mut d, &prng(kv_dim * hidden, 12)), hidden, kv_dim),
        v_proj: Linear::new(packed(&mut d, &prng(kv_dim * hidden, 13)), hidden, kv_dim),
        o_proj: Linear::new(packed(&mut d, &prng(hidden * q_dim, 14)), q_dim, hidden),
        q_norm: Some(RmsNorm::new(tensor(&mut d, &[head_dim], &prng(head_dim, 15)), eps, head_dim)),
        k_norm: Some(RmsNorm::new(tensor(&mut d, &[head_dim], &prng(head_dim, 16)), eps, head_dim)),
        v_norm: None,
        n_heads,
        n_kv_heads,
        head_dim,
        hidden,
        scale: (1.0 / (head_dim as f32).sqrt()).to_bits(),
    };
    let (c, s) = rope_tables(max_seq, head_dim, 10000.0, head_dim);
    let rope = Rope::build(&mut d, max_seq, head_dim, &bits(&c), &bits(&s));
    let x = prng(seq * hidden, 17);
    let xt = tensor(&mut d, &[seq, hidden], &x);
    assert!(attn.in_range(seq, head_dim));

    // Prefill.
    let kv_p = KvCache::new(&mut d, 1, max_seq, n_kv_heads, head_dim);
    let mut rec = Recorder::new(d);
    let pre = attn.prefill(&mut rec, &xt, &rope, &kv_p, 0, seq);
    let mut d = host.submit(rec);
    let pre_out = host.read(&pre);
    let o_pre_last = &pre_out[(seq - 1) * hidden..seq * hidden];

    // Decode the same rows one at a time through a fresh cache.
    let kv_d = KvCache::new(&mut d, 1, max_seq, n_kv_heads, head_dim);
    let mut last = vec![0.0f32; hidden];
    for pos in 0..seq {
        let row_t = tensor(&mut d, &[1, hidden], &x[pos * hidden..(pos + 1) * hidden]);
        let mut rec = Recorder::new(d);
        let out = attn.decode(&mut rec, &row_t, &rope, &kv_d, 0, pos);
        d = host.submit(rec);
        last = host.read(&out);
    }

    let r = rel_l2(&last, o_pre_last);
    assert!(r < 2e-3, "prefill/decode rel_l2 = {r}");
}

// ---- weights ----

#[test]
fn decode_bf16_roundtrip() {
    // 1.0 and -2.0 as bf16 bits: 0x3F80, 0xC000.
    let bytes = vec![0x80, 0x3F, 0x00, 0xC0];
    let raw = RawTensor { bytes, dtype: RawDType::BF16, shape: vec![2] };
    let f = raw_to_f32(&raw).unwrap();
    assert_eq!(floats(&f), vec![1.0, -2.0]);
}

#[test]
fn raw_floats_of_every_kind() {
    let raw = |bytes: Vec<u8>, dtype: RawDType| RawTensor { bytes, dtype, shape: vec![1] };
    let single = raw(1.5f32.to_le_bytes().to_vec(), RawDType::F32);
    assert_eq!(floats(&raw_to_f32(&single).unwrap()), vec![1.5]);
    let half = raw(vec![0x00, 0x3E], RawDType::F16);
    assert_eq!(floats(&raw_to_f32(&half).unwrap()), vec![1.5]);
    let whole = raw(vec![1, 0, 0, 0], RawDType::I32);
    let e = raw_to_f32(&whole).unwrap_err();
    assert_eq!(e.message(), "unsupported config field: weight dtype I32 is not a float");
}

#[test]
fn uploads_pack_or_keep() {
    let mut d = Device::new();
    let mut host = Host::new();
    let bytes: Vec<u8> = [1.0f32, -2.0, 0.5].iter().flat_map(|v| v.to_le_bytes()).collect();
    let raw = RawTensor { bytes, dtype: RawDType::F32, shape: vec![3] };
    let h = upload_f16(&mut d, &raw).unwrap();
    let s = upload_f32(&mut d, &raw).unwrap();
    let batch = d.take_batch();
    host.perform(&d, batch);
    assert_eq!(host.words(&h), vec![0xC000_3C00, 0x3800]);
    assert_eq!(host.read(&s), vec![1.0, -2.0, 0.5]);
}

// ---- models ----

/// A tiny model's settings.
#[derive(Clone)]
struct Tiny {
    arch: &'static str,
    qk: bool,
    tied: bool,
    hidden: usize,
    layers: usize,
    heads: usize,
    kv: usize,
    hd: usize,
    inter: usize,
    vocab: usize,
}

const TINY: Tiny = Tiny {
    arch: "qwen3",
    qk: true,
    tied: false,
    hidden: 8,
    layers: 2,
    heads: 4,
    kv: 2,
    hd: 4,
    inter: 12,
    vocab: 11,
};

const THETA: f32 = 10000.0;
const EPS: f32 = 1e-5;

type Weights = Vec<(String, Vec<usize>, Vec<f32>)>;

fn decoder_weights(t: &Tiny) -> Weights {
    let mut names: Vec<(String, Vec<usize>)> =
        vec![("model.embed_tokens.weight".to_string(), vec![t.vocab, t.hidden])];
    if !t.tied {
        names.push(("lm_head.weight".to_string(), vec![t.vocab, t.hidden]));
    }
    for l in 0..t.layers {
        let p = format!("model.layers.{l}");
        names.push((format!("{p}.input_layernorm.weight"), vec![t.hidden]));
        names.push((format!("{p}.post_attention_layernorm.weight"), vec![t.hidden]));
        names.push((format!("{p}.self_attn.q_proj.weight"), vec![t.heads * t.hd, t.hidden]));
        names.push((format!("{p}.self_attn.k_proj.weight"), vec![t.kv * t.hd, t.hidden]));
        names.push((format!("{p}.self_attn.v_proj.weight"), vec![t.kv * t.hd, t.hidden]));
        names.push((format!("{p}.self_attn.o_proj.weight"), vec![t.hidden, t.heads * t.hd]));
        if t.qk {
            names.push((format!("{p}.self_attn.q_norm.weight"), vec![t.hd]));
            names.push((format!("{p}.self_attn.k_norm.weight"), vec![t.hd]));
        }
        names.push((format!("{p}.mlp.gate_proj.weight"), vec![t.inter, t.hidden]));
        names.push((format!("{p}.mlp.up_proj.weight"), vec![t.inter, t.hidden]));
        names.push((format!("{p}.mlp.down_proj.weight"), vec![t.hidden, t.inter]));
    }
    names.push(("model.norm.weight".to_string(), vec![t.hidden]));
    filled(names)
}

fn filled(names: Vec<(String, Vec<usize>)>) -> Weights {
    names
        .into_iter()
        .enumerate()
        .map(|(i, (name, shape))| {
            let n = shape.iter().product();
            (name, shape, prng(n, 100 + i as u64))
        })
        .collect()
}

fn archive(weights: &Weights) -> Vec<u8> {
    let bytes: Vec<Vec<u8>> =
        weights.iter().map(|w| w.2.iter().flat_map(|v| v.to_le_bytes()).collect()).collect();
    let mut map: HashMap<String, safetensors::tensor::TensorView> = HashMap::new();
    for (w, b) in weights.iter().zip(&bytes) {
        let view =
            safetensors::tensor::TensorView::new(safetensors::Dtype::F32, w.1.clone(), b).unwrap();
        map.insert(w.0.clone(), view);
    }
    safetensors::serialize(&map, None).unwrap()
}

fn decoder_config(t: &Tiny) -> String {
    format!(
        r#"{{"model_type": "{}", "hidden_size": {}, "num_hidden_layers": {},
            "num_attention_heads": {}, "num_key_value_heads": {}, "head_dim": {},
            "intermediate_size": {}, "vocab_size": {}, "rms_norm_eps": 1e-5,
            "rope_theta": 10000, "max_position_embeddings": 64}}"#,
        t.arch, t.hidden, t.layers, t.heads, t.kv, t.hd, t.inter, t.vocab
    )
}

fn source(config: &str, weights: &Weights) -> SafeTensorsSource {
    SafeTensorsSource::from_bytes(config_from_hf_json(config).unwrap(), archive(weights)).unwrap()
}

fn decoder_numbers(t: &Tiny, max_seq: usize) -> DecoderNumbers {
    let (cos, sin) = rope_tables(max_seq, t.hd, THETA, t.hd);
    let scale = (1.0 / (t.hd as f32).sqrt()).to_bits();
    DecoderNumbers { scale, cos: bits(&cos), sin: bits(&sin) }
}

fn find<'a>(w: &'a Weights, name: &str) -> &'a [f32] {
    &w.iter().find(|e| e.0 == name).unwrap().2
}

/// The logits of the last of `ids`, computed from scratch.
fn cpu_decoder(t: &Tiny, w: &Weights, ids: &[u32]) -> Vec<f32> {
    let half = |name: &str| round_f16(find(w, name));
    let rows = ids.len();
    let (cos, sin) = rope_tables(rows, t.hd, THETA, t.hd);
    let embed = half("model.embed_tokens.weight");
    let mut x: Vec<f32> = ids
        .iter()
        .flat_map(|id| embed[*id as usize * t.hidden..(*id as usize + 1) * t.hidden].to_vec())
        .collect();
    for l in 0..t.layers {
        let p = format!("model.layers.{l}");
        let ln1 = find(w, &format!("{p}.input_layernorm.weight"));
        let h = cpu_rmsnorm(&x, ln1, rows, t.hidden, EPS);
        let proj = |part: &str, x: &[f32], i: usize, o: usize| {
            cpu_linear(x, &half(&format!("{p}.{part}.weight")), rows, i, o)
        };
        let mut q = proj("self_attn.q_proj", &h, t.hidden, t.heads * t.hd);
        let mut k = proj("self_attn.k_proj", &h, t.hidden, t.kv * t.hd);
        let v = proj("self_attn.v_proj", &h, t.hidden, t.kv * t.hd);
        if t.qk {
            let qn = find(w, &format!("{p}.self_attn.q_norm.weight"));
            let kn = find(w, &format!("{p}.self_attn.k_norm.weight"));
            q = cpu_rmsnorm(&q, qn, rows * t.heads, t.hd, EPS);
            k = cpu_rmsnorm(&k, kn, rows * t.kv, t.hd, EPS);
        }
        let q = cpu_rope(&q, &cos, &sin, rows, t.heads, t.hd, 0);
        let k = cpu_rope(&k, &cos, &sin, rows, t.kv, t.hd, 0);
        let scale = 1.0 / (t.hd as f32).sqrt();
        let a = cpu_attention(&q, &k, &v, rows, 0, t.heads, t.kv, t.hd, scale);
        let a = proj("self_attn.o_proj", &a, t.heads * t.hd, t.hidden);
        let x2: Vec<f32> = x.iter().zip(&a).map(|(a, b)| a + b).collect();
        let ln2 = find(w, &format!("{p}.post_attention_layernorm.weight"));
        let h2 = cpu_rmsnorm(&x2, ln2, rows, t.hidden, EPS);
        let g = proj("mlp.gate_proj", &h2, t.hidden, t.inter);
        let u = proj("mlp.up_proj", &h2, t.hidden, t.inter);
        let m: Vec<f32> = g.iter().zip(&u).map(|(a, b)| silu(*a) * b).collect();
        let m = proj("mlp.down_proj", &m, t.inter, t.hidden);
        x = x2.iter().zip(&m).map(|(a, b)| a + b).collect();
    }
    let x = cpu_rmsnorm(&x, find(w, "model.norm.weight"), rows, t.hidden, EPS);
    let head = if t.tied { embed } else { half("lm_head.weight") };
    cpu_linear(&x[(rows - 1) * t.hidden..], &head, 1, t.hidden, t.vocab)
}

fn load_tiny(t: &Tiny, max_seq: usize) -> (Device, Host, Model, Weights) {
    let weights = decoder_weights(t);
    let src = source(&decoder_config(t), &weights);
    let numbers = Numbers::Decoder(decoder_numbers(t, max_seq));
    assert!(check_numbers(src.config(), max_seq, &numbers));
    let mut dev = Device::new();
    let mut host = Host::new();
    let model = match load_model(&mut dev, &src, max_seq, numbers) {
        Ok(m) => m,
        Err(e) => panic!("{}", e.message()),
    };
    let batch = dev.take_batch();
    host.perform(&dev, batch);
    (dev, host, model, weights)
}

#[test]
fn decoders_match_a_reference() {
    for (arch, qk, tied) in
        [("qwen3", true, false), ("llama", false, false), ("mistral", false, true)]
    {
        let t = Tiny { arch, qk, tied, ..TINY };
        let (mut dev, mut host, model, weights) = load_tiny(&t, 16);
        assert!(model.in_range(5, 0) && model.cache_in_range(16));
        assert_eq!(model.logit_softcap(), None);
        let kv = model.new_kv_cache(&mut dev, 16);
        let ids = [3u32, 1, 4, 1, 5];
        let mut rec = Recorder::new(dev);
        let out = model.forward_prefill(&mut rec, &ids, &kv);
        let dev = host.submit(rec);
        assert_eq!(out.shape, vec![1, t.vocab]);
        let r = rel_l2(&host.read(&out), &cpu_decoder(&t, &weights, &ids));
        assert!(r < 2e-3, "{arch} prefill rel_l2 = {r}");

        let mut rec = Recorder::new(dev);
        let out = model.forward_decode(&mut rec, 9, 5, &kv);
        host.submit(rec);
        let all = [3u32, 1, 4, 1, 5, 9];
        let r = rel_l2(&host.read(&out), &cpu_decoder(&t, &weights, &all));
        assert!(r < 2e-3, "{arch} decode rel_l2 = {r}");
    }
}

#[test]
fn loaded_weights_keep_their_shapes_and_types() {
    let (_, _, model, _) = load_tiny(&TINY, 16);
    let m = match &model {
        Model::Decoder(m) => m,
        Model::Gemma4(_) => panic!("another family"),
    };
    // Two halves to a word.
    assert_eq!((m.embed_w.shape.clone(), m.embed_w.dtype), (vec![11 * 8 / 2], DType::U32));
    let head = m.lm_head_w.as_ref().unwrap();
    assert_eq!((head.shape.clone(), head.dtype), (vec![11 * 8 / 2], DType::U32));
    assert_eq!((m.norm.w.shape.clone(), m.norm.w.dtype), (vec![8], DType::F32));
    for block in &m.blocks {
        let q = &block.attn.q_proj.w;
        assert_eq!((q.shape.clone(), q.dtype), (vec![16 * 8 / 2], DType::U32));
        assert_eq!((block.ln1.w.shape.clone(), block.ln1.w.dtype), (vec![8], DType::F32));
        assert_eq!(block.attn.q_norm.as_ref().unwrap().w.shape, vec![4]);
        assert_eq!(block.rope.max_seq, 16);
        assert_eq!(block.rope.cos.shape, vec![16, 2]);
        assert_eq!(block.rope.sin.dtype, DType::F32);
    }
}

/// The index of the largest of some numbers, the first of several.
fn largest(x: &[f32]) -> usize {
    (0..x.len()).fold(0, |best, i| if x[i] > x[best] { i } else { best })
}

#[test]
fn the_greedy_token_is_the_argmax_of_the_logits() {
    let ids = [3u32, 1, 4];
    let (mut dev, mut host, model, _) = load_tiny(&TINY, 16);
    let first = model.new_kv_cache(&mut dev, 16);
    let mut rec = Recorder::new(dev);
    let logits = model.forward_prefill(&mut rec, &ids, &first);
    let mut dev = host.submit(rec);
    let logits = host.read(&logits);
    let second = model.new_kv_cache(&mut dev, 16);
    let mut rec = Recorder::new(dev);
    let token = model.prefill_argmax(&mut rec, &ids, &second);
    let dev = host.submit(rec);
    assert_eq!(token_of(&host.bytes(&token)) as usize, largest(&logits));

    // Both caches hold the prompt, and the next step goes by the same logits.
    let mut rec = Recorder::new(dev);
    let logits = model.forward_decode(&mut rec, 5, 3, &first);
    let token = model.decode_argmax(&mut rec, 5, 3, &second);
    host.submit(rec);
    assert_eq!(token_of(&host.bytes(&token)) as usize, largest(&host.read(&logits)));

    let src = source(&gemma_config(GEMMA_EXTRA), &gemma_weights());
    let mut dev = Device::new();
    let mut host = Host::new();
    let model = match load_model(&mut dev, &src, 16, Numbers::Gemma4(gemma_numbers(16))) {
        Ok(m) => m,
        Err(e) => panic!("{}", e.message()),
    };
    let cap = f32::from_bits(model.logit_softcap().unwrap());
    let first = model.new_kv_cache(&mut dev, 16);
    let mut rec = Recorder::new(dev);
    let logits = model.forward_prefill(&mut rec, &ids, &first);
    let mut dev = host.submit(rec);
    let logits = host.read(&logits);
    let capped: Vec<f32> = logits.iter().map(|v| cap * (v / cap).tanh()).collect();
    let second = model.new_kv_cache(&mut dev, 16);
    let mut rec = Recorder::new(dev);
    let token = model.prefill_argmax(&mut rec, &ids, &second);
    host.submit(rec);
    let token = token_of(&host.bytes(&token)) as usize;
    assert_eq!(token, largest(&logits));
    assert_eq!(token, largest(&capped));
}

/// The same weights as a GGUF file of single-precision tensors.
fn gguf_file(t: &Tiny, weights: &Weights) -> Vec<u8> {
    fn text(buf: &mut Vec<u8>, s: &str) {
        buf.extend_from_slice(&(s.len() as u64).to_le_bytes());
        buf.extend_from_slice(s.as_bytes());
    }
    fn setting(buf: &mut Vec<u8>, key: &str, kind: u32, value: u32) {
        text(buf, key);
        buf.extend_from_slice(&kind.to_le_bytes());
        buf.extend_from_slice(&value.to_le_bytes());
    }
    let mut buf = Vec::new();
    buf.extend_from_slice(&GGUF_MAGIC.to_le_bytes());
    buf.extend_from_slice(&3u32.to_le_bytes());
    buf.extend_from_slice(&(weights.len() as u64).to_le_bytes());
    buf.extend_from_slice(&11u64.to_le_bytes());
    text(&mut buf, "general.architecture");
    buf.extend_from_slice(&8u32.to_le_bytes());
    text(&mut buf, t.arch);
    for (key, value) in [
        ("block_count", t.layers),
        ("embedding_length", t.hidden),
        ("attention.head_count", t.heads),
        ("attention.head_count_kv", t.kv),
        ("attention.key_length", t.hd),
        ("feed_forward_length", t.inter),
        ("context_length", 64),
        ("vocab_size", t.vocab),
    ] {
        setting(&mut buf, &format!("{}.{}", t.arch, key), 4, value as u32);
    }
    let eps = format!("{}.attention.layer_norm_rms_epsilon", t.arch);
    setting(&mut buf, &eps, 6, EPS.to_bits());
    setting(&mut buf, &format!("{}.rope.freq_base", t.arch), 6, THETA.to_bits());
    let mut data: Vec<u8> = Vec::new();
    for (name, shape, values) in weights {
        text(&mut buf, &hf_to_gguf(name).unwrap());
        buf.extend_from_slice(&(shape.len() as u32).to_le_bytes());
        for d in shape.iter().rev() {
            buf.extend_from_slice(&(*d as u64).to_le_bytes());
        }
        buf.extend_from_slice(&0u32.to_le_bytes());
        buf.extend_from_slice(&(data.len() as u64).to_le_bytes());
        for v in values {
            data.extend_from_slice(&v.to_le_bytes());
        }
    }
    while buf.len() % 32 != 0 {
        buf.push(0);
    }
    buf.extend_from_slice(&data);
    buf
}

fn prefill_of<S: WeightSource>(t: &Tiny, src: &S, ids: &[u32]) -> Vec<u32> {
    let numbers = Numbers::Decoder(decoder_numbers(t, 16));
    assert!(check_numbers(src.config(), 16, &numbers));
    let mut dev = Device::new();
    let mut host = Host::new();
    let model = match load_model(&mut dev, src, 16, numbers) {
        Ok(m) => m,
        Err(e) => panic!("{}", e.message()),
    };
    let kv = model.new_kv_cache(&mut dev, 16);
    let mut rec = Recorder::new(dev);
    let out = model.forward_prefill(&mut rec, ids, &kv);
    host.submit(rec);
    host.words(&out)
}

#[test]
fn the_format_of_the_weights_does_not_matter() {
    for (arch, qk, tied) in [("qwen3", true, false), ("llama", false, true)] {
        let t = Tiny { arch, qk, tied, ..TINY };
        let mut config = decoder_config(&t);
        if tied {
            config = config.replace("\"rope_theta\"", "\"tie_word_embeddings\": true, \"rope_theta\"");
        }
        let weights = decoder_weights(&t);
        let ids = [3u32, 1, 4, 1, 5];
        let whole = prefill_of(&t, &source(&config, &weights), &ids);

        let (one, two) = weights.split_at(weights.len() / 2);
        let mut map = Vec::new();
        for (part, file) in [(one, "one"), (two, "two")] {
            for w in part {
                map.push((w.0.clone(), file.to_string()));
            }
        }
        let shards = vec![
            ("one".to_string(), archive(&one.to_vec())),
            ("two".to_string(), archive(&two.to_vec())),
        ];
        let parsed = config_from_hf_json(&config).unwrap();
        let sharded = SafeTensorsSource::from_shards(parsed, map, shards);
        assert_eq!(prefill_of(&t, &sharded, &ids), whole);

        let gguf = match GgufSource::from_bytes(gguf_file(&t, &weights)) {
            Ok(g) => g,
            Err(e) => panic!("{}", e.message()),
        };
        assert_eq!(gguf.config().tie_word_embeddings, tied);
        assert_eq!(prefill_of(&t, &gguf, &ids), whole);
    }
}

#[test]
fn a_step_gives_back_all_that_it_borrowed() {
    let (mut dev, mut host, model, _) = load_tiny(&TINY, 16);
    let kv = model.new_kv_cache(&mut dev, 16);
    let mut counts = Vec::new();
    for pos in 0..4 {
        let mut rec = Recorder::new(dev);
        let out = model.decode_argmax(&mut rec, 1, pos, &kv);
        rec.recycle(out);
        dev = host.submit(rec);
        counts.push((dev.pooled(4 * 8, Usage::Storage), dev.pooled(4 * 12, Usage::Storage)));
    }
    // The buffers of hidden states and of the feed-forward layer are the same in every step.
    assert!(counts.iter().all(|c| *c == counts[0]));
}

#[test]
fn qwen3_with_a_forward_pass_of_its_own() {
    let t = TINY;
    let weights = decoder_weights(&t);
    let src = source(&decoder_config(&t), &weights);
    let mut dev = Device::new();
    let mut host = Host::new();
    let model = match Qwen3Model::load(&mut dev, &src, 16, decoder_numbers(&t, 16)) {
        Ok(m) => m,
        Err(e) => panic!("{}", e.message()),
    };
    let kv = model.new_kv_cache(&mut dev, 16);
    assert_eq!(kv.k.len(), 2);
    let mut rec = Recorder::new(dev);
    let out = model.forward_prefill(&mut rec, &[2], &kv);
    let dev = host.submit(rec);
    assert!(rel_l2(&host.read(&out), &cpu_decoder(&t, &weights, &[2])) < 2e-3);
    let mut rec = Recorder::new(dev);
    let out = model.forward_decode(&mut rec, 7, 1, &kv);
    host.submit(rec);
    assert!(rel_l2(&host.read(&out), &cpu_decoder(&t, &weights, &[2, 7])) < 2e-3);
}

#[test]
fn blocks_tell_what_they_can_address() {
    let (_, _, model, _) = load_tiny(&TINY, 16);
    match &model {
        Model::Decoder(m) => {
            assert!(m.blocks[0].in_range(4, 0));
            assert!(!m.blocks[0].in_range(usize::MAX / 8, 0));
        }
        Model::Gemma4(_) => unreachable!(),
    }
    assert!(!model.in_range(usize::MAX / 8, 0));
    assert!(!model.cache_in_range(usize::MAX / 8));
}

#[test]
fn greedy_generation_runs_to_its_end() {
    let (mut dev, mut host, model, weights) = load_tiny(&TINY, 16);
    let kv = model.new_kv_cache(&mut dev, 16);
    let prompt = vec![3u32, 1, 4];
    let mut g = Generation::new(prompt.clone(), 5, 16);
    assert_eq!(g.next(), Step::Prefill);
    let mut expected = prompt.clone();
    loop {
        assert!(g.in_range(&model));
        let mut rec = Recorder::new(dev);
        let picked = match g.record(&model, &mut rec, &kv) {
            Some(t) => t,
            None => break,
        };
        dev = host.submit(rec);
        let token = token_of(&host.bytes(&picked));
        picked.recycle(&mut dev);

        // The token is the most likely one after all before it.
        let logits = cpu_decoder(&TINY, &weights, &expected);
        let best = logits.iter().fold(f32::NEG_INFINITY, |a, b| a.max(*b));
        assert!(logits[token as usize] > best - 1e-2);
        expected.push(token);
        g.accept(token);
        if let Step::Decode { token: t, pos } = g.next() {
            assert_eq!(t, token);
            assert_eq!(pos, expected.len() - 1);
        }
    }
    assert_eq!(g.next(), Step::Done);
    assert_eq!(g.finish(), expected[3..].to_vec());
}

#[test]
fn generations_of_no_tokens_are_done_at_once() {
    let g = Generation::new(vec![1], 0, 1);
    assert_eq!(g.next(), Step::Done);
    assert!(g.finish().is_empty());
}

#[test]
fn a_prompt_must_leave_room() {
    assert_eq!(too_long(3, 5, 8), None);
    assert_eq!(
        too_long(3, 6, 8),
        Some("prompt (3) + max_new (6) exceeds max_seq (8)".to_string())
    );
    assert!(too_long(usize::MAX, 1, usize::MAX).is_some());
}

fn message(r: Result<Model, EyebrowseError>) -> String {
    match r {
        Ok(_) => "loaded".to_string(),
        Err(e) => e.message(),
    }
}

#[test]
fn loading_stops_at_the_first_missing_weight() {
    let t = TINY;
    let mut weights = decoder_weights(&t);
    weights.retain(|w| w.0 != "model.layers.1.mlp.up_proj.weight" && w.0 != "model.norm.weight");
    let src = source(&decoder_config(&t), &weights);
    let mut dev = Device::new();
    let r = load_model(&mut dev, &src, 16, Numbers::Decoder(decoder_numbers(&t, 16)));
    assert_eq!(message(r), "load error: unknown tensor model.layers.1.mlp.up_proj.weight");
    // What was loaded before waits for reuse.
    let n = t.vocab * t.hidden / 2;
    assert_eq!(dev.pooled(4 * n as u64, Usage::Storage), 2);
}

#[test]
fn architectures_have_families() {
    assert_eq!(family_of("qwen3"), Some(Family::Qwen3));
    assert_eq!(family_of("llama"), Some(Family::Mistral));
    assert_eq!(family_of("mistral"), Some(Family::Mistral));
    assert_eq!(family_of("gemma4"), Some(Family::Gemma4));
    assert_eq!(family_of("gemma4_text"), Some(Family::Gemma4));
    assert_eq!(family_of("gemma"), None);
    let t = Tiny { arch: "phi", ..TINY };
    let src = source(&decoder_config(&t), &decoder_weights(&t));
    let numbers = Numbers::Decoder(DecoderNumbers { scale: 0, cos: Vec::new(), sin: Vec::new() });
    assert!(check_numbers(src.config(), 16, &numbers));
    let r = load_model(&mut Device::new(), &src, 16, numbers);
    assert_eq!(message(r), "unsupported config field: architecture phi");
}

#[test]
fn numbers_must_be_those_of_the_model() {
    let t = TINY;
    let src = source(&decoder_config(&t), &decoder_weights(&t));
    let right = Numbers::Decoder(decoder_numbers(&t, 16));
    assert!(check_numbers(src.config(), 16, &right));
    assert!(!check_numbers(src.config(), 17, &right));
    let other = Numbers::Gemma4(gemma_numbers(16));
    assert!(!check_numbers(src.config(), 16, &other));
}

#[test]
fn decoder_options_choose_the_norms() {
    let t = Tiny { qk: true, ..TINY };
    let src = source(&decoder_config(&t), &decoder_weights(&t));
    let opts = DecoderOpts { has_qk_norm: false };
    let mut dev = Device::new();
    let m = eyebrowse::models::decoder::load(&mut dev, &src, 16, opts, decoder_numbers(&t, 16));
    match m {
        Ok(m) => assert!(m.blocks[0].attn.q_norm.is_none()),
        Err(e) => panic!("{}", e.message()),
    }
}

// ---- Gemma 4 ----

const GEMMA_HD: usize = 8;

fn gemma_config(extra: &str) -> String {
    format!(
        r#"{{"model_type": "gemma4", "hidden_size": 8, "num_hidden_layers": 2,
            "num_attention_heads": 4, "num_key_value_heads": 2, "head_dim": 4,
            "intermediate_size": 12, "vocab_size": 11, "rms_norm_eps": 1e-5,
            "max_position_embeddings": 64 {extra}}}"#
    )
}

const GEMMA_EXTRA: &str = r#", "global_head_dim": 8,
    "layer_types": ["sliding_attention", "full_attention"],
    "rope_parameters": {
        "sliding_attention": {"rope_theta": 10000.0},
        "full_attention": {"rope_theta": 1000.0, "partial_rotary_factor": 0.5}
    },
    "final_logit_softcapping": 30.0"#;

fn gemma_weights() -> Weights {
    let t = TINY;
    let mut names: Vec<(String, Vec<usize>)> =
        vec![("model.embed_tokens.weight".to_string(), vec![t.vocab, t.hidden])];
    for l in 0..t.layers {
        let hd = if l == 1 { GEMMA_HD } else { t.hd };
        let p = format!("model.layers.{l}");
        names.push((format!("{p}.self_attn.q_proj.weight"), vec![t.heads * hd, t.hidden]));
        names.push((format!("{p}.self_attn.k_proj.weight"), vec![t.kv * hd, t.hidden]));
        names.push((format!("{p}.self_attn.v_proj.weight"), vec![t.kv * hd, t.hidden]));
        names.push((format!("{p}.self_attn.o_proj.weight"), vec![t.hidden, t.heads * hd]));
        names.push((format!("{p}.self_attn.q_norm.weight"), vec![hd]));
        names.push((format!("{p}.self_attn.k_norm.weight"), vec![hd]));
        names.push((format!("{p}.mlp.gate_proj.weight"), vec![t.inter, t.hidden]));
        names.push((format!("{p}.mlp.up_proj.weight"), vec![t.inter, t.hidden]));
        names.push((format!("{p}.mlp.down_proj.weight"), vec![t.hidden, t.inter]));
        names.push((format!("{p}.input_layernorm.weight"), vec![t.hidden]));
        names.push((format!("{p}.post_attention_layernorm.weight"), vec![t.hidden]));
        names.push((format!("{p}.pre_feedforward_layernorm.weight"), vec![t.hidden]));
        names.push((format!("{p}.post_feedforward_layernorm.weight"), vec![t.hidden]));
        names.push((format!("{p}.layer_scalar"), vec![1]));
    }
    names.push(("model.norm.weight".to_string(), vec![t.hidden]));
    filled(names)
}

fn gemma_numbers(max_seq: usize) -> GemmaNumbers {
    let (lc, ls) = rope_tables(max_seq, TINY.hd, 10000.0, TINY.hd);
    let (gc, gs) = rope_tables(max_seq, GEMMA_HD, 1000.0, 2);
    GemmaNumbers {
        local_cos: bits(&lc),
        local_sin: bits(&ls),
        global_cos: bits(&gc),
        global_sin: bits(&gs),
        embed_scale: (TINY.hidden as f32).sqrt().to_bits(),
    }
}

/// The logits of the last of `ids` before the softcap, computed from scratch.
fn cpu_gemma(w: &Weights, ids: &[u32]) -> Vec<f32> {
    let t = TINY;
    let half = |name: &str| round_f16(find(w, name));
    let rows = ids.len();
    let embed = half("model.embed_tokens.weight");
    let root = (t.hidden as f32).sqrt();
    let mut x: Vec<f32> = ids
        .iter()
        .flat_map(|id| embed[*id as usize * t.hidden..(*id as usize + 1) * t.hidden].to_vec())
        .map(|v| v * root)
        .collect();
    for l in 0..t.layers {
        let p = format!("model.layers.{l}");
        let (hd, (cos, sin)) = if l == 1 {
            (GEMMA_HD, rope_tables(rows, GEMMA_HD, 1000.0, 2))
        } else {
            (t.hd, rope_tables(rows, t.hd, 10000.0, t.hd))
        };
        let norm = |part: &str, x: &[f32], rows: usize, dim: usize| {
            cpu_rmsnorm(x, find(w, &format!("{p}.{part}.weight")), rows, dim, EPS)
        };
        let proj = |part: &str, x: &[f32], i: usize, o: usize| {
            cpu_linear(x, &half(&format!("{p}.{part}.weight")), rows, i, o)
        };
        let h = norm("input_layernorm", &x, rows, t.hidden);
        let q = proj("self_attn.q_proj", &h, t.hidden, t.heads * hd);
        let k = proj("self_attn.k_proj", &h, t.hidden, t.kv * hd);
        let v = proj("self_attn.v_proj", &h, t.hidden, t.kv * hd);
        let q = norm("self_attn.q_norm", &q, rows * t.heads, hd);
        let k = norm("self_attn.k_norm", &k, rows * t.kv, hd);
        let v = cpu_rmsnorm(&v, &vec![1.0; hd], rows * t.kv, hd, EPS);
        let q = cpu_rope(&q, &cos, &sin, rows, t.heads, hd, 0);
        let k = cpu_rope(&k, &cos, &sin, rows, t.kv, hd, 0);
        let a = cpu_attention(&q, &k, &v, rows, 0, t.heads, t.kv, hd, 1.0);
        let a = proj("self_attn.o_proj", &a, t.heads * hd, t.hidden);
        let a = norm("post_attention_layernorm", &a, rows, t.hidden);
        let x2: Vec<f32> = x.iter().zip(&a).map(|(a, b)| a + b).collect();
        let h2 = norm("pre_feedforward_layernorm", &x2, rows, t.hidden);
        let g = proj("mlp.gate_proj", &h2, t.hidden, t.inter);
        let u = proj("mlp.up_proj", &h2, t.hidden, t.inter);
        let m: Vec<f32> = g.iter().zip(&u).map(|(a, b)| gelu(*a) * b).collect();
        let m = proj("mlp.down_proj", &m, t.inter, t.hidden);
        let m = norm("post_feedforward_layernorm", &m, rows, t.hidden);
        let s = find(w, &format!("{p}.layer_scalar"))[0];
        x = x2.iter().zip(&m).map(|(a, b)| (a + b) * s).collect();
    }
    let x = cpu_rmsnorm(&x, find(w, "model.norm.weight"), rows, t.hidden, EPS);
    cpu_linear(&x[(rows - 1) * t.hidden..], &embed, 1, t.hidden, t.vocab)
}

#[test]
fn gemma_matches_a_reference() {
    let weights = gemma_weights();
    let src = source(&gemma_config(GEMMA_EXTRA), &weights);
    let numbers = Numbers::Gemma4(gemma_numbers(16));
    assert!(check_numbers(src.config(), 16, &numbers));
    let mut dev = Device::new();
    let mut host = Host::new();
    let model = match load_model(&mut dev, &src, 16, numbers) {
        Ok(m) => m,
        Err(e) => panic!("{}", e.message()),
    };
    assert_eq!(model.logit_softcap(), Some(30.0f32.to_bits()));
    let kv = model.new_kv_cache(&mut dev, 16);
    assert_eq!(kv.k[0].shape, vec![16, 2, 4]);
    assert_eq!(kv.k[1].shape, vec![16, 2, 8]);

    let mut rec = Recorder::new(dev);
    let out = model.forward_prefill(&mut rec, &[3, 1, 4], &kv);
    let dev = host.submit(rec);
    let r = rel_l2(&host.read(&out), &cpu_gemma(&weights, &[3, 1, 4]));
    assert!(r < 2e-3, "prefill rel_l2 = {r}");

    let mut rec = Recorder::new(dev);
    let out = model.forward_decode(&mut rec, 5, 3, &kv);
    host.submit(rec);
    let r = rel_l2(&host.read(&out), &cpu_gemma(&weights, &[3, 1, 4, 5]));
    assert!(r < 2e-3, "decode rel_l2 = {r}");
    match &model {
        Model::Gemma4(m) => {
            assert!(!Arc::ptr_eq(&m.model.blocks[0].rope, &m.model.blocks[1].rope));
            assert_eq!(m.model.blocks[0].kind, LayerKind::Local);
            assert_eq!(m.model.blocks[1].kind, LayerKind::Global);
        }
        Model::Decoder(_) => unreachable!(),
    }
}

fn gemma_fault(extra: &str) -> String {
    let src = source(&gemma_config(extra), &gemma_weights());
    let mut dev = Device::new();
    let r = load_model(&mut dev, &src, 16, Numbers::Gemma4(gemma_numbers(16)));
    message(r)
}

#[test]
fn gemma_refuses_what_it_does_not_implement() {
    assert_eq!(
        gemma_fault(r#", "hidden_size_per_layer_input": 4"#),
        "unsupported config field: gemma4 hidden_size_per_layer_input != 0 (per-layer input embeddings)"
    );
    assert_eq!(
        gemma_fault(r#", "num_experts": 2"#),
        "unsupported config field: gemma4 MoE (num_experts) is not supported"
    );
    assert_eq!(
        gemma_fault(r#", "enable_moe_block": true"#),
        "unsupported config field: gemma4 MoE (enable_moe_block) is not supported"
    );
    assert_eq!(
        gemma_fault(r#", "num_experts": null, "enable_moe_block": false"#),
        "load error: gemma4 config missing global_head_dim"
    );
    assert_eq!(
        gemma_fault(r#", "global_head_dim": 8"#),
        "load error: gemma4 config missing layer_types"
    );
}

#[test]
fn gemma_needs_rotary_parameters_after_its_weights() {
    let base = r#", "global_head_dim": 8, "layer_types": [null, "full_attention"]"#;
    assert_eq!(
        gemma_fault(base),
        "load error: gemma4 missing rope_parameters.sliding_attention.rope_theta"
    );
    let local = r#""sliding_attention": {"rope_theta": 10}"#;
    assert_eq!(
        gemma_fault(&format!(r#"{base}, "rope_parameters": {{{local}}}"#)),
        "load error: gemma4 missing rope_parameters.full_attention.rope_theta"
    );
    assert_eq!(
        gemma_fault(&format!(
            r#"{base}, "rope_parameters": {{{local}, "full_attention": {{"rope_theta": 10}}}}"#
        )),
        "load error: gemma4 missing rope_parameters.full_attention.partial_rotary_factor"
    );
    let mut weights = gemma_weights();
    weights.retain(|w| w.0 != "model.layers.1.layer_scalar");
    let src = source(&gemma_config(base), &weights);
    let mut dev = Device::new();
    let r = load_model(&mut dev, &src, 16, Numbers::Gemma4(gemma_numbers(16)));
    assert_eq!(message(r), "load error: unknown tensor model.layers.1.layer_scalar");
    assert!(dev.pooled(4 * 8, Usage::Storage) > 0);
}

#[test]
fn gemma_settings() {
    let cfg = config_from_hf_json(&gemma_config(GEMMA_EXTRA)).unwrap();
    assert!(check_early(&cfg.settings()).is_none());
    assert!(check_late(&cfg.settings()).is_none());
    assert_eq!(kind_of(&cfg.settings(), 0), LayerKind::Local);
    assert_eq!(kind_of(&cfg.settings(), 1), LayerKind::Global);
    assert_eq!(kind_of(&cfg.settings(), 2), LayerKind::Local);
    let negative = GEMMA_EXTRA.replace("30.0", "-30.0");
    let cfg = config_from_hf_json(&gemma_config(&negative)).unwrap();
    assert_eq!(eyebrowse::models::gemma4::softcap_of(&cfg.settings()), None);
}
