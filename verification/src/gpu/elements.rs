//! What the elements of a buffer are, as the kernels' threads write them.
//!
//! Work is recorded as whole dispatches ([`Term::Made`]): a kernel over so many workgroups. Here a
//! dispatch is taken apart. Each kernel has workgroups of a fixed size and each thread writes fixed
//! elements, so an element is either what its thread computes or, where no workgroup has that
//! thread, what the buffer held before. Indices are integers: sizes are those that 32 bits hold.

use vstd::prelude::*;

use crate::float::widened;
use crate::gpu::memory::{Groups, Kernel, Term};

verus! {

/// The number in an element, by how it is computed.
#[verifier::ext_equal]
pub enum Number {
    /// Unspecified.
    Unset,
    /// A word of the host.
    Word(u32),
    /// A half of a word, in single precision.
    Half { word: Box<Number>, high: bool },
    /// A sum.
    Sum(Box<Number>, Box<Number>),
    /// `silu(gate) * up`.
    Swish { gate: Box<Number>, up: Box<Number> },
    /// `gelu(gate) * up`.
    Bell { gate: Box<Number>, up: Box<Number> },
    /// The product with a number, given by its single-precision code.
    Scaled { x: Box<Number>, by: u32 },
    /// The sum of the products of two rows.
    Dot { a: Seq<Number>, b: Seq<Number> },
    /// A number of a row after the RMS norm of the row, times its weight.
    Normed { row: Seq<Number>, at: int, weight: Box<Number>, eps: u32 },
    /// A number of a row after the softmax of the row.
    Share { row: Seq<Number>, at: int },
    /// `x * cos - y * sin`.
    Turned { x: Box<Number>, y: Box<Number>, cos: Box<Number>, sin: Box<Number> },
    /// `y * cos + x * sin`.
    TurnedBack { x: Box<Number>, y: Box<Number>, cos: Box<Number>, sin: Box<Number> },
    /// The mean of values, weighed by the softmax of their keys' scaled products with the query.
    Mean { query: Seq<Number>, keys: Seq<Seq<Number>>, values: Seq<Number>, scale: u32 },
    /// The index of the largest of a row.
    Largest(Seq<Number>),
}

/// The low or the high half of a word, in single precision.
pub open spec fn half_of(word: Number, high: bool) -> Number {
    match word {
        Number::Word(w) => Number::Word(
            widened(
                if high {
                    (w / 0x1_0000) as u16
                } else {
                    (w % 0x1_0000) as u16
                },
            ),
        ),
        _ => Number::Half { word: Box::new(word), high },
    }
}

/// How many threads along a line have workgroups of `size` threads.
pub open spec fn threads(groups: Groups, size: int) -> int {
    if groups.y > 0 && groups.z > 0 {
        size * groups.x
    } else {
        0
    }
}

/// How many workgroups there are along a line.
pub open spec fn rows_of(groups: Groups) -> int {
    threads(groups, 1)
}

/// Whether square workgroups of 16 by 16 threads have a thread for a row and a column.
pub open spec fn tiled(groups: Groups, row: int, col: int) -> bool {
    groups.z > 0 && col < 16 * groups.x && row < 16 * groups.y
}

/// Parameter `k` of a kernel.
pub open spec fn param(inputs: Seq<Term>, k: int) -> int {
    inputs.last()->Words_0[k] as int
}

/// Whether a kernel has its inputs: `n` buffers, the last one with `params` parameters.
pub open spec fn fed(inputs: Seq<Term>, n: nat, params: nat) -> bool {
    &&& inputs.len() == n
    &&& n > 0
    &&& inputs.last() is Words
    &&& inputs.last()->Words_0.len() == params
}

/// Which of the key/value heads a head attends with: heads share them in equal groups.
pub open spec fn shared_head(head: int, h: int, hkv: int) -> int {
    head / (h / hkv)
}

/// Element `i` of a buffer.
#[verifier::opaque]
pub open spec fn value(t: Term, i: int) -> Number
    decreases t,
{
    match t {
        Term::Unset => Number::Unset,
        Term::Words(w) => if 0 <= i < w.len() {
            Number::Word(w[i])
        } else {
            Number::Unset
        },
        Term::Copied { from, at, bytes, over, to } => if to <= 4 * i && 4 * i + 4 <= to + bytes {
            value(*from, at as int / 4 + i - to as int / 4)
        } else {
            value(*over, i)
        },
        Term::Made { kernel, groups, inputs, over } => match kernel {
            Kernel::Add => if inputs.len() == 2 && 0 <= i < threads(groups, 64) {
                Number::Sum(Box::new(value(inputs[0], i)), Box::new(value(inputs[1], i)))
            } else {
                value(*over, i)
            },
            Kernel::Swiglu => if fed(inputs, 3, 1) && 0 <= i < param(inputs, 0) && i < threads(
                groups,
                64,
            ) {
                Number::Swish {
                    gate: Box::new(value(inputs[0], i)),
                    up: Box::new(value(inputs[1], i)),
                }
            } else {
                value(*over, i)
            },
            Kernel::Geglu => if fed(inputs, 3, 1) && 0 <= i < param(inputs, 0) && i < threads(
                groups,
                64,
            ) {
                Number::Bell {
                    gate: Box::new(value(inputs[0], i)),
                    up: Box::new(value(inputs[1], i)),
                }
            } else {
                value(*over, i)
            },
            Kernel::MulScalar => if fed(inputs, 2, 2) && 0 <= i < param(inputs, 0) && i < threads(
                groups,
                64,
            ) {
                Number::Scaled {
                    x: Box::new(value(inputs[0], i)),
                    by: inputs.last()->Words_0[1],
                }
            } else {
                value(*over, i)
            },
            Kernel::EmbeddingF16 => {
                let dim = param(inputs, 1);
                if fed(inputs, 3, 2) && 0 <= i < param(inputs, 0) * dim && i < threads(groups, 64) {
                    match value(inputs[0], i / dim) {
                        Number::Word(id) => {
                            let flat = id * dim + i % dim;
                            half_of(value(inputs[1], flat / 2), flat % 2 == 1)
                        },
                        _ => Number::Unset,
                    }
                } else {
                    value(*over, i)
                }
            },
            Kernel::KvWrite => {
                let (hkv, count, hd) = (param(inputs, 0), param(inputs, 1), param(inputs, 2));
                let from = i - param(inputs, 4) * (hkv * hd);
                if fed(inputs, 2, 5) && 0 <= from < hkv * count * hd && from < threads(
                    groups,
                    64,
                ) {
                    value(inputs[0], from)
                } else {
                    value(*over, i)
                }
            },
            Kernel::LinearF16w => {
                let (m, k, n) = (param(inputs, 0), param(inputs, 1), param(inputs, 2));
                let (row, col) = (i / n, i % n);
                if fed(inputs, 3, 4) && n > 0 && 0 <= i && row < m && tiled(groups, row, col) {
                    Number::Dot {
                        a: Seq::new(k as nat, |q: int| value(inputs[0], row * k + q)),
                        b: Seq::new(
                            k as nat,
                            |q: int|
                                half_of(
                                    value(inputs[1], (col * k + q) / 2),
                                    (col * k + q) % 2 == 1,
                                ),
                        ),
                    }
                } else {
                    value(*over, i)
                }
            },
            Kernel::MatmulF32 => {
                let (m, k, n) = (param(inputs, 0), param(inputs, 1), param(inputs, 2));
                let (row, col) = (i / n, i % n);
                if fed(inputs, 3, 4) && n > 0 && 0 <= i && row < m && tiled(groups, row, col) {
                    Number::Dot {
                        a: Seq::new(k as nat, |q: int| value(inputs[0], row * k + q)),
                        b: Seq::new(k as nat, |q: int| value(inputs[1], q * n + col)),
                    }
                } else {
                    value(*over, i)
                }
            },
            Kernel::MatmulF16w => {
                let (m, k, n) = (param(inputs, 0), param(inputs, 1), param(inputs, 2));
                let (row, col) = (i / n, i % n);
                if fed(inputs, 3, 4) && n > 0 && 0 <= i && row < m && tiled(groups, row, col) {
                    Number::Dot {
                        a: Seq::new(k as nat, |q: int| value(inputs[0], row * k + q)),
                        b: Seq::new(
                            k as nat,
                            |q: int|
                                half_of(
                                    value(inputs[1], (q * n + col) / 2),
                                    (q * n + col) % 2 == 1,
                                ),
                        ),
                    }
                } else {
                    value(*over, i)
                }
            },
            Kernel::AttnPrefill { head_dim } => {
                let (h, hkv, s) = (param(inputs, 0), param(inputs, 1), param(inputs, 2));
                let hd = head_dim as int;
                let (row, d) = (i / hd, i % hd);
                let (pos, kvh) = (row / h, shared_head(row % h, h, hkv));
                if fed(inputs, 4, 4) && hd > 0 && 0 <= i && row < h * s && row < threads(
                    groups,
                    64,
                ) {
                    Number::Mean {
                        query: Seq::new(hd as nat, |c: int| value(inputs[0], row * hd + c)),
                        keys: Seq::new(
                            (pos + 1) as nat,
                            |j: int|
                                Seq::new(
                                    hd as nat,
                                    |c: int| value(inputs[1], (j * hkv + kvh) * hd + c),
                                ),
                        ),
                        values: Seq::new(
                            (pos + 1) as nat,
                            |j: int| value(inputs[2], (j * hkv + kvh) * hd + d),
                        ),
                        scale: inputs.last()->Words_0[3],
                    }
                } else {
                    value(*over, i)
                }
            },
            Kernel::AttnDecode { head_dim } => {
                let (h, hkv, pos) = (param(inputs, 0), param(inputs, 1), param(inputs, 2));
                let hd = head_dim as int;
                let (row, d) = (i / hd, i % hd);
                let kvh = shared_head(row, h, hkv);
                if fed(inputs, 4, 5) && hd > 0 && 0 <= i && row < h && row < threads(groups, 64) {
                    Number::Mean {
                        query: Seq::new(hd as nat, |c: int| value(inputs[0], row * hd + c)),
                        keys: Seq::new(
                            (pos + 1) as nat,
                            |j: int|
                                Seq::new(
                                    hd as nat,
                                    |c: int| value(inputs[1], (j * hkv + kvh) * hd + c),
                                ),
                        ),
                        values: Seq::new(
                            (pos + 1) as nat,
                            |j: int| value(inputs[2], (j * hkv + kvh) * hd + d),
                        ),
                        scale: inputs.last()->Words_0[4],
                    }
                } else {
                    value(*over, i)
                }
            },
            Kernel::Softmax => {
                let cols = param(inputs, 1);
                let row = i / cols;
                if fed(inputs, 2, 2) && cols > 0 && 0 <= i && row < rows_of(groups) {
                    Number::Share {
                        row: Seq::new(cols as nat, |c: int| value(inputs[0], row * cols + c)),
                        at: i % cols,
                    }
                } else {
                    value(*over, i)
                }
            },
            Kernel::RmsNorm => {
                let dim = param(inputs, 1);
                let row = i / dim;
                if fed(inputs, 3, 3) && dim > 0 && 0 <= i && row < rows_of(groups) {
                    Number::Normed {
                        row: Seq::new(dim as nat, |c: int| value(inputs[0], row * dim + c)),
                        at: i % dim,
                        weight: Box::new(value(inputs[1], i % dim)),
                        eps: inputs.last()->Words_0[2],
                    }
                } else {
                    value(*over, i)
                }
            },
            Kernel::Rope => {
                let (seq, n_heads, hd) = (param(inputs, 0), param(inputs, 1), param(inputs, 2));
                let side = hd / 2;
                let (head, c) = (i / hd, i % hd);
                let p = if c < side {
                    c
                } else {
                    c - side
                };
                let at = (head / n_heads + param(inputs, 3)) * side + p;
                if fed(inputs, 4, 4) && hd > 0 && 0 <= i && p < side && head < seq * n_heads
                    && head * side + p < threads(groups, 64) {
                    let x = Box::new(value(inputs[0], head * hd + p));
                    let y = Box::new(value(inputs[0], head * hd + side + p));
                    let cos = Box::new(value(inputs[1], at));
                    let sin = Box::new(value(inputs[2], at));
                    if c < side {
                        Number::Turned { x, y, cos, sin }
                    } else {
                        Number::TurnedBack { x, y, cos, sin }
                    }
                } else {
                    value(*over, i)
                }
            },
            Kernel::Argmax => if fed(inputs, 2, 1) && i == 0 && rows_of(groups) > 0 {
                Number::Largest(
                    Seq::new(param(inputs, 0) as nat, |c: int| value(inputs[0], c)),
                )
            } else {
                value(*over, i)
            },
        },
    }
}

} // verus!
