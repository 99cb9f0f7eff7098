//! What the layers compute for a position, given the positions before it.
//!
//! A layer is recorded for many rows at once, and attention goes by caches that earlier steps
//! filled. The laws here take that apart: each row of a layer's output is a function of the rows
//! of the sequence up to its own, whether they came in one batch or one by one.

use vstd::arithmetic::div_mod::*;
use vstd::prelude::*;

use crate::coverage::{
    attends, attends_cache, belled, cell, half_row, head_cell, head_of, lemma_at,
    lemma_attn_decode, lemma_attn_prefill, lemma_geglu, lemma_kv_write, lemma_linear,
    lemma_rmsnorm, lemma_rope, lemma_swiglu, narrow, normalized, projected, row_of, stored,
    swished, turned_by, turned_pair,
};
use crate::gpu::elements::{shared_head, value, Number};
use crate::gpu::memory::Term;
use crate::kernels::{attn_decode_term, attn_prefill_term};
use crate::nn::attention::{normed, AttentionView};
use crate::nn::layers::{Activation, LinearView, MlpView, RmsNormView};
use crate::nn::rope::RopeView;

verus! {

/// A row after a linear layer: its products with the rows of the weights.
pub open spec fn linear_row(lin: LinearView, row: Seq<Number>) -> Seq<Number> {
    Seq::new(
        lin.out_f as nat,
        |c: int| Number::Dot { a: row, b: half_row(lin.w, c, lin.in_f as int) },
    )
}

/// A row after an RMS norm.
pub open spec fn norm_row(n: RmsNormView, row: Seq<Number>) -> Seq<Number> {
    Seq::new(
        n.dim as nat,
        |c: int|
            Number::Normed { row, at: c, weight: Box::new(value(n.w, c)), eps: n.eps },
    )
}

/// A head of a row.
pub open spec fn head_part(row: Seq<Number>, head: int, hd: int) -> Seq<Number> {
    Seq::new(hd as nat, |c: int| row[head * hd + c])
}

/// A head after a norm, or as it is where there is none.
pub open spec fn head_normed(norm: Option<RmsNormView>, part: Seq<Number>) -> Seq<Number> {
    match norm {
        Some(n) => norm_row(n, part),
        None => part,
    }
}

/// A head turned by the angles of a position.
pub open spec fn turn(part: Seq<Number>, rope: RopeView, pos: int) -> Seq<Number> {
    let side = rope.head_dim as int / 2;
    Seq::new(
        rope.head_dim as nat,
        |c: int|
            if c < side {
                Number::Turned {
                    x: Box::new(part[c]),
                    y: Box::new(part[c + side]),
                    cos: Box::new(cell(rope.cos, pos, c, side)),
                    sin: Box::new(cell(rope.sin, pos, c, side)),
                }
            } else {
                Number::TurnedBack {
                    x: Box::new(part[c - side]),
                    y: Box::new(part[c]),
                    cos: Box::new(cell(rope.cos, pos, c - side, side)),
                    sin: Box::new(cell(rope.sin, pos, c - side, side)),
                }
            },
    )
}

/// A head of the query of a position.
pub open spec fn query(
    a: AttentionView,
    rope: RopeView,
    row: Seq<Number>,
    pos: int,
    head: int,
) -> Seq<Number> {
    turn(
        head_normed(a.q_norm, head_part(linear_row(a.q_proj, row), head, a.head_dim as int)),
        rope,
        pos,
    )
}

/// A head of the key of a position.
pub open spec fn key(
    a: AttentionView,
    rope: RopeView,
    row: Seq<Number>,
    pos: int,
    head: int,
) -> Seq<Number> {
    turn(
        head_normed(a.k_norm, head_part(linear_row(a.k_proj, row), head, a.head_dim as int)),
        rope,
        pos,
    )
}

/// A head of the value of a position.
pub open spec fn val(a: AttentionView, row: Seq<Number>, head: int) -> Seq<Number> {
    head_normed(a.v_norm, head_part(linear_row(a.v_proj, row), head, a.head_dim as int))
}

/// What all heads see at the last position of a sequence of rows: each the mean of the values of
/// all positions so far.
pub open spec fn seen_by_heads(a: AttentionView, rope: RopeView, xs: Seq<Seq<Number>>) -> Seq<
    Number,
> {
    let (h, hkv, hd) = (a.n_heads as int, a.n_kv_heads as int, a.head_dim as int);
    let pos = xs.len() - 1;
    Seq::new(
        (h * hd) as nat,
        |c: int|
            {
                let g = shared_head(c / hd, h, hkv);
                Number::Mean {
                    query: query(a, rope, xs[pos], pos, c / hd),
                    keys: Seq::new(xs.len(), |t: int| key(a, rope, xs[t], t, g)),
                    values: Seq::new(xs.len(), |t: int| val(a, xs[t], g)[c % hd]),
                    scale: a.scale,
                }
            },
    )
}

/// What attention gives for the last position of a sequence of rows.
pub open spec fn attention_row(a: AttentionView, rope: RopeView, xs: Seq<Seq<Number>>) -> Seq<
    Number,
> {
    linear_row(a.o_proj, seen_by_heads(a, rope, xs))
}

/// The first `n` rows of a buffer.
pub open spec fn rows_of(x: Term, n: int, width: int) -> Seq<Seq<Number>> {
    Seq::new(n as nat, |t: int| row_of(x, t, width))
}

/// Whether the sizes of attention fit together, and 32 bits hold what `rows` rows from `base` on
/// ask for.
pub open spec fn regular(a: AttentionView, rope: RopeView, rows: int, base: int) -> bool {
    let (h, hkv, hd) = (a.n_heads as int, a.n_kv_heads as int, a.head_dim as int);
    &&& 0 < h
    &&& 0 < hkv
    &&& h % hkv == 0
    &&& 0 < hd
    &&& hd % 2 == 0
    &&& rope.head_dim == hd
    &&& a.q_norm is Some ==> a.q_norm->Some_0.dim == hd
    &&& a.k_norm is Some ==> a.k_norm->Some_0.dim == hd
    &&& a.v_norm is Some ==> a.v_norm->Some_0.dim == hd
    &&& a.q_proj.out_f == h * hd
    &&& a.k_proj.out_f == hkv * hd
    &&& a.v_proj.out_f == hkv * hd
    &&& a.o_proj.in_f == h * hd
    &&& a.k_proj.in_f == a.q_proj.in_f
    &&& a.v_proj.in_f == a.q_proj.in_f
    &&& narrow(a.q_proj.in_f as int)
    &&& narrow(a.o_proj.out_f as int)
    &&& narrow(h * hd)
    &&& narrow(h)
    &&& narrow(hkv)
    &&& narrow(hkv * hd)
    &&& narrow(hd)
    &&& 0 < rows
    &&& narrow(rows)
    &&& 0 <= base
    &&& narrow(base)
    &&& narrow(rows * h)
    &&& narrow(h * rows)
    &&& narrow(rows * hkv)
    &&& narrow(rows * h * (hd / 2))
    &&& narrow(rows * hkv * (hd / 2))
    &&& narrow(hkv * rows * hd)
}

/// Whether the caches of a layer hold the keys and the values of a sequence of rows.
#[verifier::opaque]
pub open spec fn remembers(
    a: AttentionView,
    rope: RopeView,
    k: Term,
    v: Term,
    xs: Seq<Seq<Number>>,
) -> bool {
    forall|t: int, g: int|
        0 <= t < xs.len() && 0 <= g < a.n_kv_heads ==> #[trigger] head_of(
            k,
            t,
            g,
            a.n_kv_heads as int,
            a.head_dim as int,
        ) == key(a, rope, xs[t], t, g) && head_of(
            v,
            t,
            g,
            a.n_kv_heads as int,
            a.head_dim as int,
        ) == val(a, xs[t], g)
}

/// Each row of a linear layer's output comes from its row of the input.
pub proof fn lemma_linear_row(lin: LinearView, x: Term, rows: usize, i: int)
    requires
        narrow(rows as int),
        narrow(lin.in_f as int),
        narrow(lin.out_f as int),
        0 <= i < rows,
    ensures
        row_of(lin.of(x, rows), i, lin.out_f as int) == linear_row(
            lin,
            row_of(x, i, lin.in_f as int),
        ),
{
    lemma_linear(x, lin.w, rows, lin.in_f, lin.out_f, Term::Unset);
    reveal(projected);
    let n = lin.out_f as int;
    let (got, want) = (
        row_of(lin.of(x, rows), i, n),
        linear_row(lin, row_of(x, i, lin.in_f as int)),
    );
    assert forall|c: int| 0 <= c < n implies got[c] == want[c] by {
        assert(got[c] == cell(lin.of(x, rows), i, c, n));
    }
    assert(got =~= want);
}

/// Each row of a norm's output comes from its row of the input.
pub proof fn lemma_norm_row(norm: RmsNormView, x: Term, rows: usize, i: int)
    requires
        narrow(rows as int),
        narrow(norm.dim as int),
        0 <= i < rows,
    ensures
        row_of(norm.of(x, rows), i, norm.dim as int) == norm_row(
            norm,
            row_of(x, i, norm.dim as int),
        ),
{
    lemma_rmsnorm(x, norm.w, rows, norm.dim, norm.eps, Term::Unset);
    reveal(normalized);
    let n = norm.dim as int;
    let (got, want) = (row_of(norm.of(x, rows), i, n), norm_row(norm, row_of(x, i, n)));
    assert forall|c: int| 0 <= c < n implies got[c] == want[c] by {
        assert(got[c] == cell(norm.of(x, rows), i, c, n));
    }
    assert(got =~= want);
}

/// A head of a row of a buffer is that part of the row.
proof fn lemma_head_part(x: Term, i: int, head: int, heads: int, hd: int)
    requires
        0 <= head < heads,
        0 < hd,
    ensures
        head_of(x, i, head, heads, hd) == head_part(row_of(x, i, heads * hd), head, hd),
        head_of(x, i, head, heads, hd) == row_of(x, i * heads + head, hd),
{
    let row = row_of(x, i, heads * hd);
    assert forall|c: int| 0 <= c < hd implies head_of(x, i, head, heads, hd)[c] == row[head * hd
        + c] by {
        lemma_at(head, c, heads, hd);
        assert(i * (heads * hd) + (head * hd + c) == (i * heads + head) * hd + c)
            by (nonlinear_arith);
    }
    assert(head_of(x, i, head, heads, hd) =~= head_part(row, head, hd));
    assert(head_of(x, i, head, heads, hd) =~= row_of(x, i * heads + head, hd));
}

/// A norm over heads gives each head the norm of that head.
proof fn lemma_normed_head(
    norm: Option<RmsNormView>,
    x: Term,
    rows: usize,
    heads: int,
    hd: int,
    i: int,
    head: int,
)
    requires
        norm is Some ==> norm->Some_0.dim == hd,
        0 < hd,
        narrow(hd),
        0 <= head < heads,
        0 <= i < rows,
        narrow(rows * heads),
    ensures
        head_of(normed(norm, x, (rows * heads) as usize), i, head, heads, hd) == head_normed(
            norm,
            head_of(x, i, head, heads, hd),
        ),
{
    match norm {
        Some(n) => {
            let y = n.of(x, (rows * heads) as usize);
            lemma_at(i, head, rows as int, heads);
            lemma_norm_row(n, x, (rows * heads) as usize, i * heads + head);
            lemma_head_part(x, i, head, heads, hd);
            lemma_head_part(y, i, head, heads, hd);
        },
        None => {},
    }
}

/// A rotation turns each head of each row by the angles of the row's position.
proof fn lemma_turned_head(
    rope: RopeView,
    x: Term,
    rows: usize,
    heads: usize,
    base: usize,
    i: int,
    head: int,
)
    requires
        rope.head_dim % 2 == 0,
        narrow(rope.head_dim as int),
        narrow(rows as int),
        narrow(heads as int),
        narrow(base as int),
        narrow(rows * heads * (rope.head_dim / 2)),
        0 <= i < rows,
        0 <= head < heads,
    ensures
        head_of(
            rope.of(x, rows, heads, base),
            i,
            head,
            heads as int,
            rope.head_dim as int,
        ) == turn(
            head_of(x, i, head, heads as int, rope.head_dim as int),
            rope,
            base + i,
        ),
{
    let (n, hd) = (heads as int, rope.head_dim as int);
    let side = hd / 2;
    lemma_rope(x, rope.cos, rope.sin, rows, heads, rope.head_dim, base, Term::Unset);
    reveal(turned_by);
    let y = rope.of(x, rows, heads, base);
    let part = head_of(x, i, head, n, hd);
    let (got, want) = (head_of(y, i, head, n, hd), turn(part, rope, base + i));
    assert forall|c: int| 0 <= c < hd implies got[c] == want[c] by {
        let p = if c < side {
            c
        } else {
            c - side
        };
        assert(turned_pair(y, x, rope.cos, rope.sin, n, hd, base as int, i, head, p));
        assert(part[p] == head_cell(x, i, head, p, n, hd));
        assert(part[p + side] == head_cell(x, i, head, p + side, n, hd));
        assert(got[c] == head_cell(y, i, head, c, n, hd));
    }
    assert(got =~= want);
}

/// Each head of each query, key and value comes from its row and its position.
pub proof fn lemma_heads(
    a: AttentionView,
    rope: RopeView,
    x: Term,
    rows: usize,
    base: usize,
    i: int,
)
    requires
        regular(a, rope, rows as int, base as int),
        0 <= i < rows,
    ensures
        ({
            let (h, hkv, hd) = (a.n_heads as int, a.n_kv_heads as int, a.head_dim as int);
            let row = row_of(x, i, a.q_proj.in_f as int);
            &&& forall|head: int|
                0 <= head < h ==> #[trigger] head_of(
                    a.queries(x, rope, rows, base),
                    i,
                    head,
                    h,
                    hd,
                ) == query(a, rope, row, base + i, head)
            &&& forall|g: int|
                0 <= g < hkv ==> #[trigger] head_of(a.keys(x, rope, rows, base), i, g, hkv, hd)
                    == key(a, rope, row, base + i, g)
            &&& forall|g: int|
                0 <= g < hkv ==> #[trigger] head_of(a.values(x, rows), i, g, hkv, hd) == val(
                    a,
                    row,
                    g,
                )
        }),
{
    let (h, hkv, hd) = (a.n_heads as int, a.n_kv_heads as int, a.head_dim as int);
    let row = row_of(x, i, a.q_proj.in_f as int);
    lemma_linear_row(a.q_proj, x, rows, i);
    lemma_linear_row(a.k_proj, x, rows, i);
    lemma_linear_row(a.v_proj, x, rows, i);
    assert forall|head: int| 0 <= head < h implies #[trigger] head_of(
        a.queries(x, rope, rows, base),
        i,
        head,
        h,
        hd,
    ) == query(a, rope, row, base + i, head) by {
        let p = a.q_proj.of(x, rows);
        lemma_head_part(p, i, head, h, hd);
        lemma_normed_head(a.q_norm, p, rows, h, hd, i, head);
        lemma_turned_head(
            rope,
            normed(a.q_norm, p, (rows * a.n_heads) as usize),
            rows,
            a.n_heads,
            base,
            i,
            head,
        );
    }
    assert forall|g: int| 0 <= g < hkv implies #[trigger] head_of(
        a.keys(x, rope, rows, base),
        i,
        g,
        hkv,
        hd,
    ) == key(a, rope, row, base + i, g) by {
        let p = a.k_proj.of(x, rows);
        lemma_head_part(p, i, g, hkv, hd);
        lemma_normed_head(a.k_norm, p, rows, hkv, hd, i, g);
        lemma_turned_head(
            rope,
            normed(a.k_norm, p, (rows * a.n_kv_heads) as usize),
            rows,
            a.n_kv_heads,
            base,
            i,
            g,
        );
    }
    assert forall|g: int| 0 <= g < hkv implies #[trigger] head_of(
        a.values(x, rows),
        i,
        g,
        hkv,
        hd,
    ) == val(a, row, g) by {
        let p = a.v_proj.of(x, rows);
        lemma_head_part(p, i, g, hkv, hd);
        lemma_normed_head(a.v_norm, p, rows, hkv, hd, i, g);
    }
}

/// A head shares one of the key/value heads.
proof fn lemma_shared(head: int, h: int, hkv: int)
    requires
        0 <= head < h,
        0 < hkv,
        h % hkv == 0,
    ensures
        0 <= shared_head(head, h, hkv) < hkv,
{
    let g = h / hkv;
    lemma_fundamental_div_mod(h, hkv);
    assert(g > 0) by (nonlinear_arith)
        requires
            h == hkv * g,
            h > 0,
            hkv > 0,
    ;
    lemma_fundamental_div_mod(head, g);
    lemma_mod_bound(head, g);
    let q = head / g;
    assert(0 <= q < hkv) by (nonlinear_arith)
        requires
            head == g * q + head % g,
            0 <= head % g < g,
            0 <= head < hkv * g,
            g > 0,
    ;
}

/// Rows that are written to the caches are remembered after those before them.
proof fn lemma_cache_grows(
    a: AttentionView,
    rope: RopeView,
    x: Term,
    rows: usize,
    base: usize,
    max_seq: usize,
    k: Term,
    v: Term,
    xs: Seq<Seq<Number>>,
)
    requires
        regular(a, rope, rows as int, base as int),
        xs.len() == base,
        remembers(a, rope, k, v, xs),
    ensures
        remembers(
            a,
            rope,
            a.cached(a.keys(x, rope, rows, base), rows, max_seq, base, k),
            a.cached(a.values(x, rows), rows, max_seq, base, v),
            xs + rows_of(x, rows as int, a.q_proj.in_f as int),
        ),
{
    reveal(remembers);
    reveal(stored);
    let (hkv, hd) = (a.n_kv_heads as int, a.head_dim as int);
    let all = xs + rows_of(x, rows as int, a.q_proj.in_f as int);
    let (ks, vs) = (a.keys(x, rope, rows, base), a.values(x, rows));
    let (k2, v2) = (
        a.cached(ks, rows, max_seq, base, k),
        a.cached(vs, rows, max_seq, base, v),
    );
    lemma_kv_write(ks, a.n_kv_heads, rows, a.head_dim, max_seq, base, k);
    lemma_kv_write(vs, a.n_kv_heads, rows, a.head_dim, max_seq, base, v);
    assert forall|t: int, g: int|
        0 <= t < all.len() && 0 <= g < hkv implies #[trigger] head_of(k2, t, g, hkv, hd) == key(
        a,
        rope,
        all[t],
        t,
        g,
    ) && head_of(v2, t, g, hkv, hd) == val(a, all[t], g) by {
        if t < base {
            assert(all[t] == xs[t]);
            assert forall|c: int| 0 <= c < hd implies head_of(k2, t, g, hkv, hd)[c] == head_of(
                k,
                t,
                g,
                hkv,
                hd,
            )[c] && head_of(v2, t, g, hkv, hd)[c] == head_of(v, t, g, hkv, hd)[c] by {
                let at = (t * hkv + g) * hd + c;
                lemma_at(t, g, base as int, hkv);
                lemma_at(t * hkv + g, c, base * hkv, hd);
                assert(base * hkv * hd == base * (hkv * hd)) by (nonlinear_arith);
                assert(value(k2, at) == value(k, at));
                assert(value(v2, at) == value(v, at));
            }
            assert(head_of(k2, t, g, hkv, hd) =~= head_of(k, t, g, hkv, hd));
            assert(head_of(v2, t, g, hkv, hd) =~= head_of(v, t, g, hkv, hd));
        } else {
            let i = t - base;
            assert(all[t] == row_of(x, i, a.q_proj.in_f as int));
            lemma_heads(a, rope, x, rows, base, i);
            assert forall|c: int| 0 <= c < hd implies head_of(k2, t, g, hkv, hd)[c] == head_of(
                ks,
                i,
                g,
                hkv,
                hd,
            )[c] && head_of(v2, t, g, hkv, hd)[c] == head_of(vs, i, g, hkv, hd)[c] by {
                assert(head_cell(ks, i, g, c, hkv, hd) == head_cell(k2, base + i, g, c, hkv, hd));
                assert(head_cell(vs, i, g, c, hkv, hd) == head_cell(v2, base + i, g, c, hkv, hd));
            }
            assert(head_of(k2, t, g, hkv, hd) =~= head_of(ks, i, g, hkv, hd));
            assert(head_of(v2, t, g, hkv, hd) =~= head_of(vs, i, g, hkv, hd));
        }
    }
}

proof fn lemma_remembered(
    a: AttentionView,
    rope: RopeView,
    k: Term,
    v: Term,
    xs: Seq<Seq<Number>>,
    t: int,
    g: int,
)
    requires
        remembers(a, rope, k, v, xs),
        0 <= t < xs.len(),
        0 <= g < a.n_kv_heads,
    ensures
        head_of(k, t, g, a.n_kv_heads as int, a.head_dim as int) == key(a, rope, xs[t], t, g),
        head_of(v, t, g, a.n_kv_heads as int, a.head_dim as int) == val(a, xs[t], g),
{
    reveal(remembers);
    assert(head_of(k, t, g, a.n_kv_heads as int, a.head_dim as int) == key(a, rope, xs[t], t, g));
}

/// What a batch over a fresh prompt gives each row: attention over the rows up to it.
proof fn lemma_prefilled(
    a: AttentionView,
    rope: RopeView,
    x: Term,
    rows: usize,
    max_seq: usize,
    k: Term,
    v: Term,
    i: int,
)
    requires
        regular(a, rope, rows as int, 0),
        0 <= i < rows,
    ensures
        row_of(a.prefilled(x, rope, rows, max_seq, k, v).out, i, a.o_proj.out_f as int)
            == attention_row(a, rope, rows_of(x, i + 1, a.q_proj.in_f as int)),
{
    reveal(attends);
    let (h, hkv, hd) = (a.n_heads as int, a.n_kv_heads as int, a.head_dim as int);
    let (q, ks, vs) = (a.queries(x, rope, rows, 0), a.keys(x, rope, rows, 0), a.values(x, rows));
    let o = attn_prefill_term(
        q,
        ks,
        vs,
        a.n_heads,
        a.n_kv_heads,
        rows,
        a.head_dim,
        a.scale,
        Term::Unset,
    );
    lemma_attn_prefill(
        q,
        ks,
        vs,
        a.n_heads,
        a.n_kv_heads,
        rows,
        a.head_dim,
        a.scale,
        Term::Unset,
    );
    let xs = rows_of(x, i + 1, a.q_proj.in_f as int);
    let (got, want) = (row_of(o, i, h * hd), seen_by_heads(a, rope, xs));
    assert forall|c: int| 0 <= c < h * hd implies got[c] == want[c] by {
        let (head, d) = (c / hd, c % hd);
        lemma_fundamental_div_mod(c, hd);
        lemma_mod_bound(c, hd);
        assert(0 <= head < h && c == head * hd + d) by (nonlinear_arith)
            requires
                c == hd * head + d,
                0 <= d < hd,
                0 <= c < h * hd,
                head == c / hd,
        ;
        lemma_head_part(o, i, head, h, hd);
        assert(head_of(o, i, head, h, hd)[d] == got[c]);
        assert(head_cell(o, i, head, d, h, hd) == got[c]);
        let g = shared_head(head, h, hkv);
        lemma_shared(head, h, hkv);
        lemma_heads(a, rope, x, rows, 0, i);
        assert(head_of(q, i, head, h, hd) == query(a, rope, xs[i], i, head));
        let keys = Seq::new((i + 1) as nat, |j: int| head_of(ks, j, g, hkv, hd));
        let values = Seq::new((i + 1) as nat, |j: int| head_cell(vs, j, g, d, hkv, hd));
        assert forall|t: int| 0 <= t < i + 1 implies keys[t] == key(a, rope, xs[t], t, g)
            && values[t] == val(a, xs[t], g)[d] by {
            lemma_heads(a, rope, x, rows, 0, t);
            assert(head_of(ks, t, g, hkv, hd) == key(a, rope, xs[t], t, g));
            assert(head_of(vs, t, g, hkv, hd) == val(a, xs[t], g));
            assert(head_of(vs, t, g, hkv, hd)[d] == head_cell(vs, t, g, d, hkv, hd));
        }
        assert(keys =~= want[c]->keys);
        assert(values =~= want[c]->values);
    }
    assert(got =~= want);
    lemma_linear_row(a.o_proj, o, rows, i);
}

/// What a single step gives its row: attention over the rows that the caches remember and its own.
proof fn lemma_decoded(
    a: AttentionView,
    rope: RopeView,
    x: Term,
    pos: usize,
    max_seq: usize,
    k: Term,
    v: Term,
    xs: Seq<Seq<Number>>,
)
    requires
        regular(a, rope, 1, pos as int),
        xs.len() == pos,
        remembers(a, rope, k, v, xs),
    ensures
        row_of(a.decoded(x, rope, pos, max_seq, k, v).out, 0, a.o_proj.out_f as int)
            == attention_row(a, rope, xs + rows_of(x, 1, a.q_proj.in_f as int)),
{
    reveal(attends_cache);
    let (h, hkv, hd) = (a.n_heads as int, a.n_kv_heads as int, a.head_dim as int);
    let p = pos as int;
    let all = xs + rows_of(x, 1, a.q_proj.in_f as int);
    let q = a.queries(x, rope, 1, pos);
    let k2 = a.cached(a.keys(x, rope, 1, pos), 1, max_seq, pos, k);
    let v2 = a.cached(a.values(x, 1), 1, max_seq, pos, v);
    let o = attn_decode_term(
        q,
        k2,
        v2,
        a.n_heads,
        a.n_kv_heads,
        pos,
        a.head_dim,
        max_seq,
        a.scale,
        Term::Unset,
    );
    lemma_attn_decode(
        q,
        k2,
        v2,
        a.n_heads,
        a.n_kv_heads,
        pos,
        a.head_dim,
        max_seq,
        a.scale,
        Term::Unset,
    );
    lemma_cache_grows(a, rope, x, 1, pos, max_seq, k, v, xs);
    assert(remembers(a, rope, k2, v2, all));
    lemma_heads(a, rope, x, 1, pos, 0);
    let (got, want) = (row_of(o, 0, h * hd), seen_by_heads(a, rope, all));
    assert(all.len() == p + 1);
    assert forall|c: int| 0 <= c < h * hd implies got[c] == want[c] by {
        let (head, d) = (c / hd, c % hd);
        lemma_fundamental_div_mod(c, hd);
        lemma_mod_bound(c, hd);
        assert(0 <= head < h && c == head * hd + d) by (nonlinear_arith)
            requires
                c == hd * head + d,
                0 <= d < hd,
                0 <= c < h * hd,
                head == c / hd,
        ;
        lemma_head_part(o, 0, head, h, hd);
        assert(head_of(o, 0, head, h, hd)[d] == got[c]);
        assert(head_cell(o, 0, head, d, h, hd) == got[c]);
        let g = shared_head(head, h, hkv);
        lemma_shared(head, h, hkv);
        assert(head_of(q, 0, head, h, hd) == query(a, rope, all[p], p, head));
        let keys = Seq::new((p + 1) as nat, |j: int| head_of(k2, j, g, hkv, hd));
        let values = Seq::new((p + 1) as nat, |j: int| head_cell(v2, j, g, d, hkv, hd));
        assert forall|t: int| 0 <= t < p + 1 implies keys[t] == key(a, rope, all[t], t, g)
            && values[t] == val(a, all[t], g)[d] by {
            lemma_remembered(a, rope, k2, v2, all, t, g);
            assert(head_of(v2, t, g, hkv, hd)[d] == head_cell(v2, t, g, d, hkv, hd));
        }
        assert(keys =~= want[c]->keys);
        assert(values =~= want[c]->values);
    }
    assert(got =~= want);
    lemma_linear_row(a.o_proj, o, 1, 0);
}

/// Attention over caches is attention over the whole sequence so far: each row sees the rows that
/// the caches remember and those of its batch up to itself, and the caches then remember all of
/// them. A fresh prompt comes in one batch, anything else row by row.
pub proof fn lemma_attention(
    a: AttentionView,
    rope: RopeView,
    x: Term,
    rows: usize,
    base: usize,
    max_seq: usize,
    k: Term,
    v: Term,
    xs: Seq<Seq<Number>>,
)
    requires
        regular(a, rope, rows as int, base as int),
        base == 0 || rows == 1,
        xs.len() == base,
        remembers(a, rope, k, v, xs),
    ensures
        ({
            let t = a.attended(x, rope, rows, base, max_seq, k, v);
            let width = a.q_proj.in_f as int;
            &&& remembers(a, rope, t.k, t.v, xs + rows_of(x, rows as int, width))
            &&& forall|i: int|
                0 <= i < rows ==> #[trigger] row_of(t.out, i, a.o_proj.out_f as int)
                    == attention_row(a, rope, xs + rows_of(x, i + 1, width))
        }),
{
    let t = a.attended(x, rope, rows, base, max_seq, k, v);
    let width = a.q_proj.in_f as int;
    lemma_cache_grows(a, rope, x, rows, base, max_seq, k, v, xs);
    assert forall|i: int| 0 <= i < rows implies #[trigger] row_of(
        t.out,
        i,
        a.o_proj.out_f as int,
    ) == attention_row(a, rope, xs + rows_of(x, i + 1, width)) by {
        if base == 0 && rows > 1 {
            lemma_prefilled(a, rope, x, rows, max_seq, k, v, i);
            assert(xs + rows_of(x, i + 1, width) =~= rows_of(x, i + 1, width));
        } else {
            lemma_decoded(a, rope, x, base, max_seq, k, v, xs);
        }
    }
}

/// A row after a feed-forward block.
pub open spec fn mlp_row(m: MlpView, row: Seq<Number>) -> Seq<Number> {
    let (g, u) = (linear_row(m.gate, row), linear_row(m.up, row));
    linear_row(
        m.down,
        Seq::new(
            m.gate.out_f as nat,
            |c: int|
                match m.activation {
                    Activation::Swiglu => Number::Swish {
                        gate: Box::new(g[c]),
                        up: Box::new(u[c]),
                    },
                    Activation::Geglu => Number::Bell { gate: Box::new(g[c]), up: Box::new(u[c]) },
                },
        ),
    )
}

/// Whether the sizes of a feed-forward block fit together, and 32 bits hold what `rows` rows ask
/// for.
pub open spec fn regular_mlp(m: MlpView, rows: int) -> bool {
    &&& m.up.in_f == m.gate.in_f
    &&& m.up.out_f == m.gate.out_f
    &&& m.down.in_f == m.gate.out_f
    &&& narrow(m.gate.in_f as int)
    &&& narrow(m.gate.out_f as int)
    &&& narrow(m.down.out_f as int)
    &&& narrow(rows)
    &&& narrow(rows * m.gate.out_f)
}

/// Each row of a feed-forward block's output comes from its row of the input.
pub proof fn lemma_mlp_row(m: MlpView, x: Term, rows: usize, i: int)
    requires
        regular_mlp(m, rows as int),
        0 <= i < rows,
    ensures
        row_of(m.of(x, rows), i, m.down.out_f as int) == mlp_row(
            m,
            row_of(x, i, m.gate.in_f as int),
        ),
{
    let n = m.gate.out_f as int;
    let row = row_of(x, i, m.gate.in_f as int);
    let (g, u) = (m.gate.of(x, rows), m.up.of(x, rows));
    lemma_linear_row(m.gate, x, rows, i);
    lemma_linear_row(m.up, x, rows, i);
    let inner = m.inner(x, rows);
    let total = (rows * m.gate.out_f) as usize;
    match m.activation {
        Activation::Swiglu => {
            lemma_swiglu(g, u, total, Term::Unset);
            reveal(swished);
        },
        Activation::Geglu => {
            lemma_geglu(g, u, total, Term::Unset);
            reveal(belled);
        },
    }
    let want = Seq::new(
        m.gate.out_f as nat,
        |c: int|
            match m.activation {
                Activation::Swiglu => Number::Swish {
                    gate: Box::new(linear_row(m.gate, row)[c]),
                    up: Box::new(linear_row(m.up, row)[c]),
                },
                Activation::Geglu => Number::Bell {
                    gate: Box::new(linear_row(m.gate, row)[c]),
                    up: Box::new(linear_row(m.up, row)[c]),
                },
            },
    );
    let got = row_of(inner, i, n);
    assert forall|c: int| 0 <= c < n implies got[c] == want[c] by {
        lemma_at(i, c, rows as int, n);
        assert(got[c] == value(inner, i * n + c));
        assert(row_of(g, i, n)[c] == value(g, i * n + c));
        assert(row_of(u, i, n)[c] == value(u, i * n + c));
    }
    assert(got =~= want);
    lemma_linear_row(m.down, inner, rows, i);
    let (gr, ur) = (linear_row(m.gate, row), linear_row(m.up, row));
    assert(want =~= Seq::new(
        m.gate.out_f as nat,
        |c: int|
            match m.activation {
                Activation::Swiglu => Number::Swish { gate: Box::new(gr[c]), up: Box::new(ur[c]) },
                Activation::Geglu => Number::Bell { gate: Box::new(gr[c]), up: Box::new(ur[c]) },
            },
    ));
}

} // verus!
