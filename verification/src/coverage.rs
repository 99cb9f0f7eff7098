//! What the kernels compute, element by element.
//!
//! A dispatch wrapper chooses how many workgroups run. The laws here say what that has to come to:
//! every element that a kernel is for is computed from the right elements of its inputs, whatever
//! the sizes, and no other element changes.

use vstd::arithmetic::div_mod::*;
use vstd::prelude::*;

use crate::gpu::elements::{half_of, shared_head, value, Number};
use crate::gpu::kernel::{add_term, copied, group_count};
use crate::gpu::memory::Term;
use crate::kernels::{
    argmax_term, attn_decode_term, attn_prefill_term, embedding_f16_term, geglu_term,
    kv_write_term, linear_f16w_term, matmul_f16w_term, matmul_term, mul_scalar_term, rmsnorm_term,
    rope_term, softmax_term, swiglu_term,
};

verus! {

/// What 32 bits hold.
pub open spec fn narrow(n: int) -> bool {
    0 <= n < 0x1_0000_0000
}

/// The number in a row and a column of a buffer with rows of `width` numbers.
pub open spec fn cell(t: Term, row: int, col: int, width: int) -> Number {
    value(t, row * width + col)
}

/// Number `d` of a head of a row of a buffer with rows of `heads` heads of `width` numbers.
pub open spec fn head_cell(t: Term, row: int, head: int, d: int, heads: int, width: int) -> Number {
    value(t, (row * heads + head) * width + d)
}

/// A row of a buffer with rows of `width` numbers.
pub open spec fn row_of(t: Term, row: int, width: int) -> Seq<Number> {
    Seq::new(width as nat, |c: int| cell(t, row, c, width))
}

/// A head of a row of a buffer with rows of `heads` heads of `width` numbers.
pub open spec fn head_of(t: Term, row: int, head: int, heads: int, width: int) -> Seq<Number> {
    Seq::new(width as nat, |c: int| head_cell(t, row, head, c, heads, width))
}

/// Half `i` of a buffer of packed halves, two to a word, the low one first.
pub open spec fn half_cell(t: Term, i: int) -> Number {
    half_of(value(t, i / 2), i % 2 == 1)
}

/// A row of a buffer of packed halves with rows of `width` halves.
pub open spec fn half_row(t: Term, row: int, width: int) -> Seq<Number> {
    Seq::new(width as nat, |c: int| half_cell(t, row * width + c))
}

/// A column of a buffer with `height` rows of `width` numbers.
pub open spec fn column_of(t: Term, col: int, height: int, width: int) -> Seq<Number> {
    Seq::new(height as nat, |r: int| cell(t, r, col, width))
}

/// A column of a buffer of packed halves with `height` rows of `width` halves.
pub open spec fn half_column(t: Term, col: int, height: int, width: int) -> Seq<Number> {
    Seq::new(height as nat, |r: int| half_cell(t, r * width + col))
}

/// Number `d` of what a head of row `row` attends to: the positions up to `last` with their keys
/// and values, of the key/value head that it shares.
pub open spec fn attention_of(
    q: Term,
    k: Term,
    v: Term,
    row: int,
    last: int,
    head: int,
    d: int,
    h: int,
    hkv: int,
    hd: int,
    scale: u32,
) -> Number {
    let kvh = shared_head(head, h, hkv);
    Number::Mean {
        query: head_of(q, row, head, h, hd),
        keys: Seq::new((last + 1) as nat, |j: int| head_of(k, j, kvh, hkv, hd)),
        values: Seq::new((last + 1) as nat, |j: int| head_cell(v, j, kvh, d, hkv, hd)),
        scale,
    }
}

/// Whether elements from `n` on are as they were.
pub open spec fn kept_from(after: Term, before: Term, n: int) -> bool {
    forall|i: int| i >= n ==> #[trigger] value(after, i) == value(before, i)
}

pub(crate) proof fn lemma_at(row: int, col: int, rows: int, width: int)
    requires
        0 <= row < rows,
        0 <= col < width,
    ensures
        (row * width + col) / width == row,
        (row * width + col) % width == col,
        0 <= row * width + col < rows * width,
{
    assert(0 <= row * width && row * width + width <= rows * width) by (nonlinear_arith)
        requires
            0 <= row < rows,
            0 < width,
    ;
    lemma_fundamental_div_mod_converse(row * width + col, width, row, col);
}

/// Groups of a size have a member for each of `n` items, and no group is idle.
pub proof fn lemma_groups_cover(n: u32, size: u32)
    requires
        size > 1,
    ensures
        group_count(n, size) * size >= n,
        n > 0 ==> (group_count(n, size) - 1) * size < n,
        n == 0 ==> group_count(n, size) == 0,
{
    let q = n / size;
    assert(q <= n / 2 && n == q * size + n % size) by (nonlinear_arith)
        requires
            size > 1,
            q == n / size,
    ;
    assert((q + 1) * size == q * size + size) by (nonlinear_arith);
    assert((q - 1) * size == q * size - size) by (nonlinear_arith);
}

/// Whether `out[i] = silu(gate[i]) * up[i]` for the first `n` elements, and no other changed.
#[verifier::opaque]
pub open spec fn swished(after: Term, before: Term, gate: Term, up: Term, n: int) -> bool {
    &&& forall|i: int|
        0 <= i < n ==> #[trigger] value(after, i) == (Number::Swish {
            gate: Box::new(value(gate, i)),
            up: Box::new(value(up, i)),
        })
    &&& kept_from(after, before, n)
}

/// SwiGLU computes each of `n` elements, whatever `n` is.
pub proof fn lemma_swiglu(gate: Term, up: Term, n: usize, over: Term)
    requires
        narrow(n as int),
    ensures
        swished(swiglu_term(gate, up, n, over), over, gate, up, n as int),
{
    reveal(swished);
    reveal(value);
    lemma_groups_cover(n as u32, 64);
}

/// Whether `out[i] = gelu(gate[i]) * up[i]` for the first `n` elements, and no other changed.
#[verifier::opaque]
pub open spec fn belled(after: Term, before: Term, gate: Term, up: Term, n: int) -> bool {
    &&& forall|i: int|
        0 <= i < n ==> #[trigger] value(after, i) == (Number::Bell {
            gate: Box::new(value(gate, i)),
            up: Box::new(value(up, i)),
        })
    &&& kept_from(after, before, n)
}

/// GeGLU computes each of `n` elements, whatever `n` is.
pub proof fn lemma_geglu(gate: Term, up: Term, n: usize, over: Term)
    requires
        narrow(n as int),
    ensures
        belled(geglu_term(gate, up, n, over), over, gate, up, n as int),
{
    reveal(belled);
    reveal(value);
    lemma_groups_cover(n as u32, 64);
}

/// Whether `out[i] = x[i] * factor` for the first `n` elements, and no other changed.
#[verifier::opaque]
pub open spec fn scaled_by(after: Term, before: Term, x: Term, n: int, factor: u32) -> bool {
    &&& forall|i: int|
        0 <= i < n ==> #[trigger] value(after, i) == (Number::Scaled {
            x: Box::new(value(x, i)),
            by: factor,
        })
    &&& kept_from(after, before, n)
}

/// A product with one number computes each of `n` elements, whatever `n` is.
pub proof fn lemma_mul_scalar(x: Term, n: usize, factor: u32, over: Term)
    requires
        narrow(n as int),
    ensures
        scaled_by(mul_scalar_term(x, n, factor, over), over, x, n as int, factor),
{
    reveal(scaled_by);
    reveal(value);
    lemma_groups_cover(n as u32, 64);
}

/// Whether `out[i] = a[i] + b[i]` for the first `n` elements.
#[verifier::opaque]
pub open spec fn summed(after: Term, a: Term, b: Term, n: int) -> bool {
    forall|i: int|
        0 <= i < n ==> #[trigger] value(after, i) == Number::Sum(
            Box::new(value(a, i)),
            Box::new(value(b, i)),
        )
}

/// A sum computes each of `n` elements, whatever `n` is.
pub proof fn lemma_add(a: Term, b: Term, n: u32, over: Term)
    ensures
        summed(add_term(a, b, n, over), a, b, n as int),
{
    reveal(summed);
    reveal(value);
    lemma_groups_cover(n, 64);
}

/// Whether row `t` of the output is row `ids[t]` of a table of packed halves, for each of `n` ids,
/// and no other element changed.
#[verifier::opaque]
pub open spec fn gathered(
    after: Term,
    before: Term,
    ids: Term,
    table: Term,
    n: int,
    dim: int,
) -> bool {
    &&& forall|t: int, j: int|
        0 <= t < n && 0 <= j < dim && value(ids, t) is Word ==> #[trigger] cell(after, t, j, dim)
            == half_cell(table, value(ids, t)->Word_0 * dim + j)
    &&& kept_from(after, before, n * dim)
}

/// An embedding lookup copies each number of each row, whatever their count.
pub proof fn lemma_embedding(ids: Term, table: Term, n: usize, dim: usize, over: Term)
    requires
        narrow(n as int),
        narrow(dim as int),
        narrow(n * dim),
    ensures
        gathered(
            embedding_f16_term(ids, table, n, dim, over),
            over,
            ids,
            table,
            n as int,
            dim as int,
        ),
{
    reveal(gathered);
    reveal(value);
    lemma_groups_cover((n * dim) as u32, 64);
    let after = embedding_f16_term(ids, table, n, dim, over);
    assert forall|t: int, j: int|
        0 <= t < n && 0 <= j < dim && value(ids, t) is Word implies #[trigger] cell(
        after,
        t,
        j,
        dim as int,
    ) == half_cell(table, value(ids, t)->Word_0 * dim + j) by {
        lemma_at(t, j, n as int, dim as int);
    }
}

/// Whether `cache[dst_start + c][head][d] == src[c][head][d]` for all of `count` rows, and no
/// other element of the cache changed.
#[verifier::opaque]
pub open spec fn stored(
    after: Term,
    before: Term,
    src: Term,
    hkv: int,
    count: int,
    hd: int,
    dst_start: int,
) -> bool {
    &&& forall|c: int, head: int, d: int|
        0 <= c < count && 0 <= head < hkv && 0 <= d < hd ==> #[trigger] head_cell(
            src,
            c,
            head,
            d,
            hkv,
            hd,
        ) == head_cell(after, dst_start + c, head, d, hkv, hd)
    &&& forall|i: int|
        !(dst_start * (hkv * hd) <= i < dst_start * (hkv * hd) + hkv * count * hd)
            ==> #[trigger] value(after, i) == value(before, i)
}

/// A cache write stores every number of every head of every row at its position, and leaves the
/// other positions alone.
pub proof fn lemma_kv_write(
    src: Term,
    hkv: usize,
    count: usize,
    hd: usize,
    max_seq: usize,
    dst_start: usize,
    over: Term,
)
    requires
        narrow(hkv as int),
        narrow(count as int),
        narrow(hd as int),
        narrow(dst_start as int),
        narrow(hkv * count * hd),
    ensures
        stored(
            kv_write_term(src, hkv, count, hd, max_seq, dst_start, over),
            over,
            src,
            hkv as int,
            count as int,
            hd as int,
            dst_start as int,
        ),
{
    reveal(stored);
    reveal(value);
    lemma_groups_cover((hkv * count * hd) as u32, 64);
    let after = kv_write_term(src, hkv, count, hd, max_seq, dst_start, over);
    let (h, w, start) = (hkv as int, hd as int, dst_start as int);
    assert forall|c: int, head: int, d: int|
        0 <= c < count && 0 <= head < h && 0 <= d < w implies #[trigger] head_cell(
        src,
        c,
        head,
        d,
        h,
        w,
    ) == head_cell(after, start + c, head, d, h, w) by {
        lemma_at(c, head, count as int, h);
        lemma_at(c * h + head, d, count * h, w);
        assert(count * h == h * count) by (nonlinear_arith);
        assert(((start + c) * h + head) * w + d == start * (h * w) + ((c * h + head) * w + d))
            by (nonlinear_arith);
    }
}

/// Whether `c[i][j]` is the sum over `k` of `a[i][k] * w[j][k]` for each of `m` rows and `out_f`
/// columns.
#[verifier::opaque]
pub open spec fn projected(after: Term, a: Term, w: Term, m: int, in_f: int, out_f: int) -> bool {
    forall|i: int, j: int|
        0 <= i < m && 0 <= j < out_f ==> #[trigger] cell(after, i, j, out_f) == (Number::Dot {
            a: row_of(a, i, in_f),
            b: half_row(w, j, in_f),
        })
}

/// A linear layer computes every number of its output, whatever the sizes.
pub proof fn lemma_linear(a: Term, w: Term, m: usize, in_f: usize, out_f: usize, over: Term)
    requires
        narrow(m as int),
        narrow(in_f as int),
        narrow(out_f as int),
    ensures
        projected(
            linear_f16w_term(a, w, m, in_f, out_f, over),
            a,
            w,
            m as int,
            in_f as int,
            out_f as int,
        ),
{
    reveal(projected);
    reveal(value);
    lemma_groups_cover(m as u32, 16);
    lemma_groups_cover(out_f as u32, 16);
    let after = linear_f16w_term(a, w, m, in_f, out_f, over);
    let (k, n) = (in_f as int, out_f as int);
    assert forall|i: int, j: int| 0 <= i < m && 0 <= j < n implies #[trigger] cell(after, i, j, n)
        == (Number::Dot { a: row_of(a, i, k), b: half_row(w, j, k) }) by {
        lemma_at(i, j, m as int, n);
        let got = value(after, i * n + j);
        assert(got is Dot);
        assert(got->Dot_a =~= row_of(a, i, k));
        assert(got->Dot_b =~= half_row(w, j, k));
    }
}

/// Whether `c[i][j]` is the sum over `p` of `a[i][p] * b[p][j]` for each of `m` rows and `n`
/// columns.
#[verifier::opaque]
pub open spec fn multiplied(after: Term, a: Term, b: Term, m: int, k: int, n: int) -> bool {
    forall|i: int, j: int|
        0 <= i < m && 0 <= j < n ==> #[trigger] cell(after, i, j, n) == (Number::Dot {
            a: row_of(a, i, k),
            b: column_of(b, j, k, n),
        })
}

/// A matrix product computes every number of its output, whatever the sizes.
pub proof fn lemma_matmul(a: Term, b: Term, m: usize, k: usize, n: usize, over: Term)
    requires
        narrow(m as int),
        narrow(k as int),
        narrow(n as int),
    ensures
        multiplied(matmul_term(a, b, m, k, n, over), a, b, m as int, k as int, n as int),
{
    reveal(multiplied);
    reveal(value);
    lemma_groups_cover(m as u32, 16);
    lemma_groups_cover(n as u32, 16);
    let after = matmul_term(a, b, m, k, n, over);
    let (p, q) = (k as int, n as int);
    assert forall|i: int, j: int| 0 <= i < m && 0 <= j < q implies #[trigger] cell(after, i, j, q)
        == (Number::Dot { a: row_of(a, i, p), b: column_of(b, j, p, q) }) by {
        lemma_at(i, j, m as int, q);
        let got = value(after, i * q + j);
        assert(got is Dot);
        assert(got->Dot_a =~= row_of(a, i, p));
        assert(got->Dot_b =~= column_of(b, j, p, q));
    }
}

/// Like [`multiplied`], with `b` in packed halves.
#[verifier::opaque]
pub open spec fn multiplied_halves(after: Term, a: Term, b: Term, m: int, k: int, n: int) -> bool {
    forall|i: int, j: int|
        0 <= i < m && 0 <= j < n ==> #[trigger] cell(after, i, j, n) == (Number::Dot {
            a: row_of(a, i, k),
            b: half_column(b, j, k, n),
        })
}

/// A matrix product with packed halves computes every number of its output, whatever the sizes.
pub proof fn lemma_matmul_f16w(a: Term, b: Term, m: usize, k: usize, n: usize, over: Term)
    requires
        narrow(m as int),
        narrow(k as int),
        narrow(n as int),
    ensures
        multiplied_halves(
            matmul_f16w_term(a, b, m, k, n, over),
            a,
            b,
            m as int,
            k as int,
            n as int,
        ),
{
    reveal(multiplied_halves);
    reveal(value);
    lemma_groups_cover(m as u32, 16);
    lemma_groups_cover(n as u32, 16);
    let after = matmul_f16w_term(a, b, m, k, n, over);
    let (p, q) = (k as int, n as int);
    assert forall|i: int, j: int| 0 <= i < m && 0 <= j < q implies #[trigger] cell(after, i, j, q)
        == (Number::Dot { a: row_of(a, i, p), b: half_column(b, j, p, q) }) by {
        lemma_at(i, j, m as int, q);
        let got = value(after, i * q + j);
        assert(got is Dot);
        assert(got->Dot_a =~= row_of(a, i, p));
        assert(got->Dot_b =~= half_column(b, j, p, q));
    }
}

/// Whether each head of each of `s` positions attends to the positions up to its own, and no
/// further.
#[verifier::opaque]
pub open spec fn attends(
    after: Term,
    q: Term,
    k: Term,
    v: Term,
    h: int,
    hkv: int,
    s: int,
    hd: int,
    scale: u32,
) -> bool {
    forall|i: int, head: int, d: int|
        0 <= i < s && 0 <= head < h && 0 <= d < hd ==> #[trigger] head_cell(
            after,
            i,
            head,
            d,
            h,
            hd,
        ) == attention_of(q, k, v, i, i, head, d, h, hkv, hd, scale)
}

/// Attention over a prompt computes every number of every head of every position, whatever the
/// sizes.
pub proof fn lemma_attn_prefill(
    q: Term,
    k: Term,
    v: Term,
    h: usize,
    hkv: usize,
    s: usize,
    hd: usize,
    scale: u32,
    over: Term,
)
    requires
        narrow(h as int),
        narrow(hkv as int),
        narrow(s as int),
        narrow(h * s),
    ensures
        attends(
            attn_prefill_term(q, k, v, h, hkv, s, hd, scale, over),
            q,
            k,
            v,
            h as int,
            hkv as int,
            s as int,
            hd as int,
            scale,
        ),
{
    reveal(attends);
    reveal(value);
    lemma_groups_cover((h * s) as u32, 64);
    let after = attn_prefill_term(q, k, v, h, hkv, s, hd, scale, over);
    let (n, m, w) = (h as int, hkv as int, hd as int);
    assert forall|i: int, head: int, d: int|
        0 <= i < s && 0 <= head < n && 0 <= d < w implies #[trigger] head_cell(
        after,
        i,
        head,
        d,
        n,
        w,
    ) == attention_of(q, k, v, i, i, head, d, n, m, w, scale) by {
        lemma_at(i, head, s as int, n);
        lemma_at(i * n + head, d, s * n, w);
        assert(s * n == n * s) by (nonlinear_arith);
        let got = value(after, (i * n + head) * w + d);
        let want = attention_of(q, k, v, i, i, head, d, n, m, w, scale);
        assert(got is Mean);
        assert(got->query =~= want->query);
        assert(got->keys =~~= want->keys);
        assert(got->values =~= want->values);
    }
}

/// Whether each head of a single row attends to the positions up to `pos` of the caches.
#[verifier::opaque]
pub open spec fn attends_cache(
    after: Term,
    q: Term,
    k: Term,
    v: Term,
    h: int,
    hkv: int,
    pos: int,
    hd: int,
    scale: u32,
) -> bool {
    forall|head: int, d: int|
        0 <= head < h && 0 <= d < hd ==> #[trigger] head_cell(after, 0, head, d, h, hd)
            == attention_of(q, k, v, 0, pos, head, d, h, hkv, hd, scale)
}

/// A decode step computes every number of every head over all positions so far, whatever the
/// sizes.
pub proof fn lemma_attn_decode(
    q: Term,
    k: Term,
    v: Term,
    h: usize,
    hkv: usize,
    pos: usize,
    hd: usize,
    max_seq: usize,
    scale: u32,
    over: Term,
)
    requires
        narrow(h as int),
        narrow(hkv as int),
        narrow(pos as int),
    ensures
        attends_cache(
            attn_decode_term(q, k, v, h, hkv, pos, hd, max_seq, scale, over),
            q,
            k,
            v,
            h as int,
            hkv as int,
            pos as int,
            hd as int,
            scale,
        ),
{
    reveal(attends_cache);
    reveal(value);
    lemma_groups_cover(h as u32, 64);
    let after = attn_decode_term(q, k, v, h, hkv, pos, hd, max_seq, scale, over);
    let (n, m, w, p) = (h as int, hkv as int, hd as int, pos as int);
    assert forall|head: int, d: int|
        0 <= head < n && 0 <= d < w implies #[trigger] head_cell(after, 0, head, d, n, w)
        == attention_of(q, k, v, 0, p, head, d, n, m, w, scale) by {
        lemma_at(head, d, n, w);
        assert(0 * n + head == head);
        let got = value(after, head * w + d);
        let want = attention_of(q, k, v, 0, p, head, d, n, m, w, scale);
        assert(got is Mean);
        assert(got->query =~= want->query);
        assert(got->keys =~~= want->keys);
        assert(got->values =~= want->values);
    }
}

/// Whether each of `rows` rows is the softmax of its row.
#[verifier::opaque]
pub open spec fn shared_out(after: Term, x: Term, rows: int, cols: int) -> bool {
    forall|i: int, j: int|
        0 <= i < rows && 0 <= j < cols ==> #[trigger] cell(after, i, j, cols) == (Number::Share {
            row: row_of(x, i, cols),
            at: j,
        })
}

/// A softmax computes every number of every row, whatever the sizes.
pub proof fn lemma_softmax(x: Term, rows: usize, cols: usize, over: Term)
    requires
        narrow(rows as int),
        narrow(cols as int),
    ensures
        shared_out(softmax_term(x, rows, cols, over), x, rows as int, cols as int),
{
    reveal(shared_out);
    reveal(value);
    let after = softmax_term(x, rows, cols, over);
    let n = cols as int;
    assert forall|i: int, j: int| 0 <= i < rows && 0 <= j < n implies #[trigger] cell(
        after,
        i,
        j,
        n,
    ) == (Number::Share { row: row_of(x, i, n), at: j }) by {
        lemma_at(i, j, rows as int, n);
        let got = value(after, i * n + j);
        assert(got is Share);
        assert(got->Share_row =~= row_of(x, i, n));
    }
}

/// Whether each of `rows` rows is the RMS norm of its row, times the weights.
#[verifier::opaque]
pub open spec fn normalized(
    after: Term,
    x: Term,
    weight: Term,
    rows: int,
    dim: int,
    eps: u32,
) -> bool {
    forall|i: int, j: int|
        0 <= i < rows && 0 <= j < dim ==> #[trigger] cell(after, i, j, dim) == (Number::Normed {
            row: row_of(x, i, dim),
            at: j,
            weight: Box::new(value(weight, j)),
            eps,
        })
}

/// An RMS norm computes every number of every row, whatever the sizes.
pub proof fn lemma_rmsnorm(x: Term, weight: Term, rows: usize, dim: usize, eps: u32, over: Term)
    requires
        narrow(rows as int),
        narrow(dim as int),
    ensures
        normalized(
            rmsnorm_term(x, weight, rows, dim, eps, over),
            x,
            weight,
            rows as int,
            dim as int,
            eps,
        ),
{
    reveal(normalized);
    reveal(value);
    let after = rmsnorm_term(x, weight, rows, dim, eps, over);
    let n = dim as int;
    assert forall|i: int, j: int| 0 <= i < rows && 0 <= j < n implies #[trigger] cell(
        after,
        i,
        j,
        n,
    ) == (Number::Normed {
        row: row_of(x, i, n),
        at: j,
        weight: Box::new(value(weight, j)),
        eps,
    }) by {
        lemma_at(i, j, rows as int, n);
        let got = value(after, i * n + j);
        assert(got is Normed);
        assert(got->Normed_row =~= row_of(x, i, n));
    }
}

/// Whether numbers `p` and `p + head_dim / 2` of a head are turned by the angle of the position and
/// `p`.
pub open spec fn turned_pair(
    after: Term,
    x: Term,
    cos: Term,
    sin: Term,
    n_heads: int,
    hd: int,
    base_pos: int,
    s: int,
    head: int,
    p: int,
) -> bool {
    let side = hd / 2;
    let a = Box::new(head_cell(x, s, head, p, n_heads, hd));
    let b = Box::new(head_cell(x, s, head, p + side, n_heads, hd));
    let c = Box::new(cell(cos, base_pos + s, p, side));
    let d = Box::new(cell(sin, base_pos + s, p, side));
    &&& head_cell(after, s, head, p, n_heads, hd) == (Number::Turned { x: a, y: b, cos: c, sin: d })
    &&& head_cell(after, s, head, p + side, n_heads, hd) == (Number::TurnedBack {
        x: a,
        y: b,
        cos: c,
        sin: d,
    })
}

/// Whether each head of each row is turned by the angles of its position.
#[verifier::opaque]
pub open spec fn turned_by(
    after: Term,
    x: Term,
    cos: Term,
    sin: Term,
    seq: int,
    n_heads: int,
    hd: int,
    base_pos: int,
) -> bool {
    forall|s: int, head: int, p: int|
        0 <= s < seq && 0 <= head < n_heads && 0 <= p < hd / 2 ==> #[trigger] turned_pair(
            after,
            x,
            cos,
            sin,
            n_heads,
            hd,
            base_pos,
            s,
            head,
            p,
        )
}

/// What the rotation makes of number `c` of a head, where the head has a thread for it.
proof fn lemma_turned_cell(
    x: Term,
    cos: Term,
    sin: Term,
    seq: usize,
    n_heads: usize,
    head_dim: usize,
    base_pos: usize,
    over: Term,
    s: int,
    head: int,
    p: int,
    back: bool,
)
    requires
        narrow(seq as int),
        narrow(n_heads as int),
        narrow(head_dim as int),
        narrow(base_pos as int),
        narrow(seq * n_heads * (head_dim / 2)),
        0 <= s < seq,
        0 <= head < n_heads,
        0 <= p < head_dim / 2,
    ensures
        ({
            let (n, w) = (n_heads as int, head_dim as int);
            let side = w / 2;
            let a = Box::new(head_cell(x, s, head, p, n, w));
            let b = Box::new(head_cell(x, s, head, p + side, n, w));
            let c = Box::new(cell(cos, base_pos + s, p, side));
            let d = Box::new(cell(sin, base_pos + s, p, side));
            let got = head_cell(
                rope_term(x, cos, sin, seq, n_heads, head_dim, base_pos, over),
                s,
                head,
                if back {
                    p + side
                } else {
                    p
                },
                n,
                w,
            );
            got == if back {
                Number::TurnedBack { x: a, y: b, cos: c, sin: d }
            } else {
                Number::Turned { x: a, y: b, cos: c, sin: d }
            }
        }),
{
    let (rows, n, w) = (seq as int, n_heads as int, head_dim as int);
    let side = w / 2;
    lemma_groups_cover((seq * n_heads * (head_dim / 2)) as u32, 64);
    let row = s * n + head;
    let col = if back {
        p + side
    } else {
        p
    };
    lemma_at(s, head, rows, n);
    lemma_at(row, col, rows * n, w);
    lemma_at(row, p, rows * n, side);
    assert(row * w + (p + side) == row * w + side + p);
    reveal(value);
}

/// A rotation turns every pair of every head of every row, whatever the sizes.
pub proof fn lemma_rope(
    x: Term,
    cos: Term,
    sin: Term,
    seq: usize,
    n_heads: usize,
    head_dim: usize,
    base_pos: usize,
    over: Term,
)
    requires
        narrow(seq as int),
        narrow(n_heads as int),
        narrow(head_dim as int),
        narrow(base_pos as int),
        narrow(seq * n_heads * (head_dim / 2)),
    ensures
        turned_by(
            rope_term(x, cos, sin, seq, n_heads, head_dim, base_pos, over),
            x,
            cos,
            sin,
            seq as int,
            n_heads as int,
            head_dim as int,
            base_pos as int,
        ),
{
    reveal(turned_by);
    let (rows, n, w, base) = (seq as int, n_heads as int, head_dim as int, base_pos as int);
    let side = w / 2;
    let after = rope_term(x, cos, sin, seq, n_heads, head_dim, base_pos, over);
    assert forall|s: int, head: int, p: int|
        0 <= s < rows && 0 <= head < n && 0 <= p < side implies #[trigger] turned_pair(
        after,
        x,
        cos,
        sin,
        n,
        w,
        base,
        s,
        head,
        p,
    ) by {
        lemma_turned_cell(
            x, cos, sin, seq, n_heads, head_dim, base_pos, over, s, head, p, false);
        lemma_turned_cell(
            x, cos, sin, seq, n_heads, head_dim, base_pos, over, s, head, p, true);
    }
}

/// Whether the first element is the index of the largest of `vocab` numbers.
#[verifier::opaque]
pub open spec fn largest_of(after: Term, logits: Term, vocab: int) -> bool {
    value(after, 0) == Number::Largest(Seq::new(vocab as nat, |c: int| value(logits, c)))
}

/// An argmax looks at every number, whatever their count.
pub proof fn lemma_argmax(logits: Term, vocab: usize, over: Term)
    requires
        narrow(vocab as int),
    ensures
        largest_of(argmax_term(logits, vocab, over), logits, vocab as int),
{
    reveal(largest_of);
    reveal(value);
    let got = value(argmax_term(logits, vocab, over), 0);
    assert(got is Largest);
    assert(got->Largest_0 =~= Seq::new(vocab as nat, |c: int| value(logits, c)));
}

/// A copy moves each of `n` elements and leaves the others alone.
pub proof fn lemma_copied(from: Term, at: int, n: int, over: Term, to: int, i: int)
    requires
        0 <= at,
        0 <= n,
        0 <= to,
        4 * (at + n) <= u64::MAX,
        4 * (to + n) <= u64::MAX,
    ensures
        value(copied(from, at, n, over, to), i) == if to <= i < to + n {
            value(from, at + i - to)
        } else {
            value(over, i)
        },
{
    reveal(value);
}

/// Whether a dispatch has a thread for each of `n` items in workgroups of `size` threads along a
/// line, and would not without its last workgroup.
pub open spec fn snug(t: Term, n: int, size: int) -> bool {
    &&& t is Made
    &&& t->groups.y == 1
    &&& t->groups.z == 1
    &&& n <= size * t->groups.x
    &&& size * (t->groups.x - 1) < n || t->groups.x == 0
}

/// Whether a dispatch has a thread for each cell of a grid in square workgroups, and would not
/// without its last column or row of workgroups.
pub open spec fn snug_tiles(t: Term, rows: int, cols: int) -> bool {
    &&& t is Made
    &&& t->groups.z == 1
    &&& cols <= 16 * t->groups.x
    &&& 16 * (t->groups.x - 1) < cols || t->groups.x == 0
    &&& rows <= 16 * t->groups.y
    &&& 16 * (t->groups.y - 1) < rows || t->groups.y == 0
}

/// The kernels that work through a run of elements start a thread for each element and no idle
/// workgroup.
pub proof fn lemma_snug_runs(x: Term, y: Term, n: usize, dim: usize, factor: u32, over: Term)
    requires
        narrow(n as int),
        narrow(dim as int),
        narrow(n * dim),
    ensures
        snug(add_term(x, y, n as u32, over), n as int, 64),
        snug(swiglu_term(x, y, n, over), n as int, 64),
        snug(geglu_term(x, y, n, over), n as int, 64),
        snug(mul_scalar_term(x, n, factor, over), n as int, 64),
        snug(embedding_f16_term(x, y, n, dim, over), n * dim, 64),
        snug(softmax_term(x, n, dim, over), n as int, 1),
        snug(rmsnorm_term(x, y, n, dim, factor, over), n as int, 1),
        snug(argmax_term(x, n, over), 1, 1),
{
    lemma_groups_cover(n as u32, 64);
    lemma_groups_cover((n * dim) as u32, 64);
}

/// The kernels that work with heads start a thread for each of their rows, numbers or pairs, and no
/// idle workgroup.
pub proof fn lemma_snug_heads(
    x: Term,
    y: Term,
    z: Term,
    h: usize,
    hkv: usize,
    s: usize,
    hd: usize,
    at: usize,
    max_seq: usize,
    scale: u32,
    over: Term,
)
    requires
        narrow(h as int),
        narrow(h * s),
        narrow(hkv * s * hd),
        narrow(s * h * (hd / 2)),
    ensures
        snug(attn_prefill_term(x, y, z, h, hkv, s, hd, scale, over), h * s, 64),
        snug(attn_decode_term(x, y, z, h, hkv, at, hd, max_seq, scale, over), h as int, 64),
        snug(kv_write_term(x, hkv, s, hd, max_seq, at, over), hkv * s * hd, 64),
        snug(rope_term(x, y, z, s, h, hd, at, over), s * h * (hd / 2), 64),
{
    lemma_groups_cover((h * s) as u32, 64);
    lemma_groups_cover(h as u32, 64);
    lemma_groups_cover((hkv * s * hd) as u32, 64);
    lemma_groups_cover((s * h * (hd / 2)) as u32, 64);
}

/// The matrix kernels start a thread for each cell of their output and no idle workgroup.
pub proof fn lemma_snug_matrices(a: Term, b: Term, m: usize, k: usize, n: usize, over: Term)
    requires
        narrow(m as int),
        narrow(n as int),
    ensures
        snug_tiles(linear_f16w_term(a, b, m, k, n, over), m as int, n as int),
        snug_tiles(matmul_term(a, b, m, k, n, over), m as int, n as int),
        snug_tiles(matmul_f16w_term(a, b, m, k, n, over), m as int, n as int),
{
    lemma_groups_cover(m as u32, 16);
    lemma_groups_cover(n as u32, 16);
}

/// What a kernel was told as its parameter `i`.
pub open spec fn told(t: Term, i: int) -> int {
    t->inputs.last()->Words_0[i] as int
}

/// Kernels are told the room in the caches and the number of rows that they were called for, also
/// where they do not need them.
pub proof fn lemma_told(
    x: Term,
    y: Term,
    z: Term,
    rows: usize,
    cols: usize,
    hd: usize,
    at: usize,
    max_seq: usize,
    scale: u32,
    over: Term,
)
    requires
        narrow(rows as int),
        narrow(max_seq as int),
    ensures
        told(kv_write_term(x, rows, cols, hd, max_seq, at, over), 3) == max_seq,
        told(attn_decode_term(x, y, z, rows, cols, at, hd, max_seq, scale, over), 3) == max_seq,
        told(softmax_term(x, rows, cols, over), 0) == rows,
        told(rmsnorm_term(x, y, rows, cols, scale, over), 0) == rows,
{
}

/// A kernel's output is bound right behind what it reads and before its parameters, but for the
/// cache that is written in place, which is bound first.
pub proof fn lemma_output_binding(
    x: Term,
    y: Term,
    z: Term,
    n: usize,
    m: usize,
    k: usize,
    at: usize,
    scale: u32,
    over: Term,
)
    ensures
        ({
            let before_params = |t: Term| t->kernel.out() == t->inputs.len() - 1;
            &&& before_params(swiglu_term(x, y, n, over))
            &&& before_params(geglu_term(x, y, n, over))
            &&& before_params(mul_scalar_term(x, n, scale, over))
            &&& before_params(embedding_f16_term(x, y, n, m, over))
            &&& before_params(linear_f16w_term(x, y, m, k, n, over))
            &&& before_params(matmul_term(x, y, m, k, n, over))
            &&& before_params(matmul_f16w_term(x, y, m, k, n, over))
            &&& before_params(attn_prefill_term(x, y, z, n, m, k, at, scale, over))
            &&& before_params(attn_decode_term(x, y, z, n, m, k, at, n, scale, over))
            &&& before_params(softmax_term(x, n, m, over))
            &&& before_params(rmsnorm_term(x, y, n, m, scale, over))
            &&& before_params(rope_term(x, y, z, n, m, k, at, over))
            &&& before_params(argmax_term(x, n, over))
            &&& add_term(x, y, scale, over)->kernel.out() == add_term(
                x,
                y,
                scale,
                over,
            )->inputs.len()
            &&& kv_write_term(x, n, m, k, at, n, over)->kernel.out() == 0
        }),
{
}

} // verus!
