//! What a model computes for a sequence of tokens.
//!
//! A model takes its tokens in steps, a prompt at once and then one token after the other, and
//! keeps what it needs of earlier tokens in caches. The laws here say that this comes to the same:
//! the logits are a function of the weights and of all tokens so far, however the steps were cut.

use vstd::prelude::*;

use crate::coverage::{
    cell, gathered, half_cell, half_row, lemma_add, lemma_at, lemma_copied, lemma_embedding,
    lemma_linear, lemma_mul_scalar, narrow, projected, row_of, scaled_by, summed,
};
use crate::gpu::device::DeviceView;
use crate::gpu::elements::{value, Number};
use crate::gpu::memory::Term;
use crate::kernels::{embedding_f16_term, mul_scalar_term};
use crate::models::decoder::{sum, StandardView};
use crate::models::gemma4::GemmaView;
use crate::models::model::{embedded, last_row, through, Block, Flow, LanguageModel};
use crate::nn::layers::RmsNormView;
use crate::nn::rows::{
    attention_row, lemma_attention, lemma_mlp_row, lemma_norm_row, mlp_row, norm_row, regular,
    regular_mlp, remembers, rows_of,
};

verus! {

/// The sum of two rows.
pub open spec fn sum_row(a: Seq<Number>, b: Seq<Number>) -> Seq<Number> {
    Seq::new(a.len(), |c: int| Number::Sum(Box::new(a[c]), Box::new(b[c])))
}

/// A row times a number.
pub open spec fn scale_row(a: Seq<Number>, by: u32) -> Seq<Number> {
    Seq::new(a.len(), |c: int| Number::Scaled { x: Box::new(a[c]), by })
}

/// Rows after a norm.
pub open spec fn norm_rows(n: RmsNormView, xs: Seq<Seq<Number>>) -> Seq<Seq<Number>> {
    Seq::new(xs.len(), |t: int| norm_row(n, xs[t]))
}

/// What a standard block makes of the last row of a sequence.
pub open spec fn standard_row(b: StandardView, xs: Seq<Seq<Number>>) -> Seq<Number> {
    let x2 = sum_row(xs.last(), attention_row(b.attn, b.rope, norm_rows(b.ln1, xs)));
    sum_row(x2, mlp_row(b.mlp, norm_row(b.ln2, x2)))
}

/// What a Gemma 4 block makes of the last row of a sequence.
pub open spec fn gemma_row(b: GemmaView, xs: Seq<Seq<Number>>) -> Seq<Number> {
    let t = attention_row(b.attn, b.rope, norm_rows(b.input_ln, xs));
    let x2 = sum_row(xs.last(), norm_row(b.post_attn_ln, t));
    let m = mlp_row(b.mlp, norm_row(b.pre_ff_ln, x2));
    scale_row(sum_row(x2, norm_row(b.post_ff_ln, m)), b.layer_scalar)
}

/// Whether the sizes of a standard block fit together, and 32 bits hold what `rows` rows from
/// `base` on ask for.
pub open spec fn regular_standard(b: StandardView, rows: int, base: int) -> bool {
    &&& regular(b.attn, b.rope, rows, base)
    &&& regular_mlp(b.mlp, rows)
    &&& b.ln1.dim == b.hidden
    &&& b.ln2.dim == b.hidden
    &&& b.attn.q_proj.in_f == b.hidden
    &&& b.attn.o_proj.out_f == b.hidden
    &&& b.mlp.gate.in_f == b.hidden
    &&& b.mlp.down.out_f == b.hidden
    &&& narrow(rows * b.hidden)
}

/// Whether the sizes of a Gemma 4 block fit together, and 32 bits hold what `rows` rows from `base`
/// on ask for.
pub open spec fn regular_gemma(b: GemmaView, rows: int, base: int) -> bool {
    &&& regular(b.attn, b.rope, rows, base)
    &&& regular_mlp(b.mlp, rows)
    &&& b.input_ln.dim == b.hidden
    &&& b.post_attn_ln.dim == b.hidden
    &&& b.pre_ff_ln.dim == b.hidden
    &&& b.post_ff_ln.dim == b.hidden
    &&& b.attn.q_proj.in_f == b.hidden
    &&& b.attn.o_proj.out_f == b.hidden
    &&& b.mlp.gate.in_f == b.hidden
    &&& b.mlp.down.out_f == b.hidden
    &&& narrow(rows * b.hidden)
}

/// Each row of a sum is the sum of the rows.
pub proof fn lemma_sum_row(a: Term, b: Term, rows: usize, cols: usize, i: int)
    requires
        narrow(rows * cols),
        0 <= i < rows,
    ensures
        row_of(sum(a, b, rows, cols), i, cols as int) == sum_row(
            row_of(a, i, cols as int),
            row_of(b, i, cols as int),
        ),
{
    lemma_add(a, b, (rows * cols) as u32, Term::Unset);
    reveal(summed);
    let n = cols as int;
    let s = sum(a, b, rows, cols);
    let (got, want) = (row_of(s, i, n), sum_row(row_of(a, i, n), row_of(b, i, n)));
    assert forall|c: int| 0 <= c < n implies got[c] == want[c] by {
        lemma_at(i, c, rows as int, n);
        assert(got[c] == value(s, i * n + c));
    }
    assert(got =~= want);
}

/// Each row of a product with a number is the row times the number.
pub proof fn lemma_scale_row(x: Term, rows: usize, cols: usize, by: u32, i: int)
    requires
        narrow(rows * cols),
        0 <= i < rows,
    ensures
        row_of(mul_scalar_term(x, (rows * cols) as usize, by, Term::Unset), i, cols as int)
            == scale_row(row_of(x, i, cols as int), by),
{
    lemma_mul_scalar(x, (rows * cols) as usize, by, Term::Unset);
    reveal(scaled_by);
    let n = cols as int;
    let s = mul_scalar_term(x, (rows * cols) as usize, by, Term::Unset);
    let (got, want) = (row_of(s, i, n), scale_row(row_of(x, i, n), by));
    assert forall|c: int| 0 <= c < n implies got[c] == want[c] by {
        lemma_at(i, c, rows as int, n);
        assert(got[c] == value(s, i * n + c));
    }
    assert(got =~= want);
}

/// Normed rows of a batch follow the normed rows before them.
proof fn lemma_norm_rows(
    norm: RmsNormView,
    x: Term,
    rows: usize,
    n: int,
    xs: Seq<Seq<Number>>,
)
    requires
        narrow(rows as int),
        narrow(norm.dim as int),
        0 <= n <= rows,
    ensures
        norm_rows(norm, xs) + rows_of(norm.of(x, rows), n, norm.dim as int) == norm_rows(
            norm,
            xs + rows_of(x, n, norm.dim as int),
        ),
{
    let w = norm.dim as int;
    let (got, want) = (
        norm_rows(norm, xs) + rows_of(norm.of(x, rows), n, w),
        norm_rows(norm, xs + rows_of(x, n, w)),
    );
    assert forall|t: int| 0 <= t < got.len() implies got[t] == want[t] by {
        if t >= xs.len() {
            lemma_norm_row(norm, x, rows, t - xs.len());
        }
    }
    assert(got =~= want);
}

/// A standard block computes for each row what it makes of the sequence up to that row.
pub proof fn lemma_standard_rows(
    b: StandardView,
    x: Term,
    rows: usize,
    base: usize,
    max_seq: usize,
    k: Term,
    v: Term,
    xs: Seq<Seq<Number>>,
)
    requires
        regular_standard(b, rows as int, base as int),
        base == 0 || rows == 1,
        xs.len() == base,
        remembers(b.attn, b.rope, k, v, norm_rows(b.ln1, xs)),
    ensures
        ({
            let t = b.of(x, rows, base, max_seq, k, v);
            let w = b.hidden as int;
            &&& remembers(
                b.attn,
                b.rope,
                t.k,
                t.v,
                norm_rows(b.ln1, xs + rows_of(x, rows as int, w)),
            )
            &&& forall|i: int|
                0 <= i < rows ==> #[trigger] row_of(t.out, i, w) == standard_row(
                    b,
                    xs + rows_of(x, i + 1, w),
                )
        }),
{
    let w = b.hidden as int;
    let h = b.ln1.of(x, rows);
    let hs = norm_rows(b.ln1, xs);
    lemma_attention(b.attn, b.rope, h, rows, base, max_seq, k, v, hs);
    lemma_norm_rows(b.ln1, x, rows, rows as int, xs);
    let t = b.attn.attended(h, b.rope, rows, base, max_seq, k, v);
    let x2 = sum(x, t.out, rows, b.hidden);
    let n2 = b.ln2.of(x2, rows);
    let m = b.mlp.of(n2, rows);
    let out = b.of(x, rows, base, max_seq, k, v).out;
    assert forall|i: int| 0 <= i < rows implies #[trigger] row_of(out, i, w) == standard_row(
        b,
        xs + rows_of(x, i + 1, w),
    ) by {
        let all = xs + rows_of(x, i + 1, w);
        lemma_norm_rows(b.ln1, x, rows, i + 1, xs);
        assert(row_of(t.out, i, w) == attention_row(b.attn, b.rope, norm_rows(b.ln1, all)));
        assert(all.last() == row_of(x, i, w));
        lemma_sum_row(x, t.out, rows, b.hidden, i);
        lemma_norm_row(b.ln2, x2, rows, i);
        lemma_mlp_row(b.mlp, n2, rows, i);
        lemma_sum_row(x2, m, rows, b.hidden, i);
    }
}

/// A Gemma 4 block computes for each row what it makes of the sequence up to that row.
pub proof fn lemma_gemma_rows(
    b: GemmaView,
    x: Term,
    rows: usize,
    base: usize,
    max_seq: usize,
    k: Term,
    v: Term,
    xs: Seq<Seq<Number>>,
)
    requires
        regular_gemma(b, rows as int, base as int),
        base == 0 || rows == 1,
        xs.len() == base,
        remembers(b.attn, b.rope, k, v, norm_rows(b.input_ln, xs)),
    ensures
        ({
            let t = b.of(x, rows, base, max_seq, k, v);
            let w = b.hidden as int;
            &&& remembers(
                b.attn,
                b.rope,
                t.k,
                t.v,
                norm_rows(b.input_ln, xs + rows_of(x, rows as int, w)),
            )
            &&& forall|i: int|
                0 <= i < rows ==> #[trigger] row_of(t.out, i, w) == gemma_row(
                    b,
                    xs + rows_of(x, i + 1, w),
                )
        }),
{
    let w = b.hidden as int;
    let h = b.input_ln.of(x, rows);
    let hs = norm_rows(b.input_ln, xs);
    lemma_attention(b.attn, b.rope, h, rows, base, max_seq, k, v, hs);
    lemma_norm_rows(b.input_ln, x, rows, rows as int, xs);
    let t = b.attn.attended(h, b.rope, rows, base, max_seq, k, v);
    let an = b.post_attn_ln.of(t.out, rows);
    let x2 = sum(x, an, rows, b.hidden);
    let n2 = b.pre_ff_ln.of(x2, rows);
    let m = b.mlp.of(n2, rows);
    let mn = b.post_ff_ln.of(m, rows);
    let x3 = sum(x2, mn, rows, b.hidden);
    let out = b.of(x, rows, base, max_seq, k, v).out;
    assert forall|i: int| 0 <= i < rows implies #[trigger] row_of(out, i, w) == gemma_row(
        b,
        xs + rows_of(x, i + 1, w),
    ) by {
        let all = xs + rows_of(x, i + 1, w);
        lemma_norm_rows(b.input_ln, x, rows, i + 1, xs);
        assert(row_of(t.out, i, w) == attention_row(b.attn, b.rope, norm_rows(b.input_ln, all)));
        assert(all.last() == row_of(x, i, w));
        lemma_norm_row(b.post_attn_ln, t.out, rows, i);
        lemma_sum_row(x, an, rows, b.hidden, i);
        lemma_norm_row(b.pre_ff_ln, x2, rows, i);
        lemma_mlp_row(b.mlp, n2, rows, i);
        lemma_norm_row(b.post_ff_ln, m, rows, i);
        lemma_sum_row(x2, mn, rows, b.hidden, i);
        lemma_scale_row(x3, rows, b.hidden, b.layer_scalar, i);
    }
}

/// The embedding of a token: its row of the table, scaled where there is a scale.
pub open spec fn embed_row<B: Block>(m: LanguageModel<B>, d: DeviceView, id: u32) -> Seq<Number> {
    let row = half_row(m.embed_w.in_dev(d), id as int, m.cfg.hidden as int);
    match m.embed_scale {
        Some(s) => scale_row(row, s),
        None => row,
    }
}

/// The hidden states of a sequence of tokens after `n` blocks: each block sees, for a position, the
/// positions up to it.
pub open spec fn states<B: Block>(
    m: LanguageModel<B>,
    d: DeviceView,
    tokens: Seq<u32>,
    n: int,
) -> Seq<Seq<Number>>
    decreases n,
{
    if n <= 0 {
        Seq::new(tokens.len(), |t: int| embed_row(m, d, tokens[t]))
    } else {
        let before = states(m, d, tokens, n - 1);
        Seq::new(tokens.len(), |t: int| m.blocks@[n - 1].row(d, before.take(t + 1)))
    }
}

/// The logits for the token that follows a sequence: the products of the last hidden state, normed,
/// with the rows of the LM head.
pub open spec fn next_logits<B: Block>(
    m: LanguageModel<B>,
    d: DeviceView,
    tokens: Seq<u32>,
) -> Seq<Number> {
    let last = norm_row(m.norm.on(d), states(m, d, tokens, m.blocks@.len() as int).last());
    Seq::new(
        m.cfg.vocab as nat,
        |j: int| Number::Dot { a: last, b: half_row(m.head(d), j, m.cfg.hidden as int) },
    )
}

/// Whether the caches of a model hold what it needs of a sequence of tokens.
pub open spec fn remembers_tokens<B: Block>(
    m: LanguageModel<B>,
    d: DeviceView,
    k: Seq<Term>,
    v: Seq<Term>,
    tokens: Seq<u32>,
) -> bool {
    &&& k.len() == m.blocks@.len()
    &&& v.len() == m.blocks@.len()
    &&& forall|l: int|
        0 <= l < m.blocks@.len() ==> (#[trigger] m.blocks@[l]).remembers(
            d,
            k[l],
            v[l],
            states(m, d, tokens, l),
        )
}

/// Whether the sizes of a model fit together, and 32 bits hold what `rows` rows from `base` on ask
/// for.
pub open spec fn regular_model<B: Block>(
    m: LanguageModel<B>,
    d: DeviceView,
    rows: int,
    base: int,
) -> bool {
    &&& 0 < rows
    &&& 0 < m.cfg.hidden
    &&& m.norm.dim == m.cfg.hidden
    &&& narrow(rows)
    &&& narrow(m.cfg.hidden as int)
    &&& narrow(m.cfg.vocab as int)
    &&& narrow(rows * m.cfg.hidden)
    &&& 4 * (rows * m.cfg.hidden) <= u64::MAX
    &&& forall|l: int|
        0 <= l < m.blocks@.len() ==> (#[trigger] m.blocks@[l]).regular(d, rows, base)
            && m.blocks@[l].width() == m.cfg.hidden
}

/// Earlier hidden states do not depend on later tokens.
pub proof fn lemma_states_causal<B: Block>(
    m: LanguageModel<B>,
    d: DeviceView,
    tokens: Seq<u32>,
    more: Seq<u32>,
    n: int,
)
    ensures
        states(m, d, tokens + more, n).take(tokens.len() as int) == states(m, d, tokens, n),
        states(m, d, tokens + more, n).len() == tokens.len() + more.len(),
    decreases n,
{
    let all = tokens + more;
    let p = tokens.len() as int;
    let (got, want) = (states(m, d, all, n).take(p), states(m, d, tokens, n));
    if n <= 0 {
        assert(got =~= want);
    } else {
        lemma_states_causal(m, d, tokens, more, n - 1);
        let (a, b) = (states(m, d, all, n - 1), states(m, d, tokens, n - 1));
        assert(b.len() == p);
        assert forall|t: int| 0 <= t < p implies got[t] == want[t] by {
            assert(a.take(p).take(t + 1) =~= a.take(t + 1));
        }
        assert(got =~= want);
    }
}

/// The embeddings of a batch of tokens, row by row.
proof fn lemma_embedded<B: Block>(m: LanguageModel<B>, d: DeviceView, ids: Seq<u32>, i: int)
    requires
        regular_model(m, d, ids.len() as int, 0) || (0 < m.cfg.hidden && narrow(
            m.cfg.hidden as int,
        ) && narrow(ids.len() as int) && narrow(ids.len() * m.cfg.hidden)),
        0 <= i < ids.len(),
    ensures
        row_of(
            embedded(m.embed_w.in_dev(d), m.embed_scale, ids, m.cfg.hidden),
            i,
            m.cfg.hidden as int,
        ) == embed_row(m, d, ids[i]),
{
    let table = m.embed_w.in_dev(d);
    let rows = ids.len() as usize;
    let w = m.cfg.hidden as int;
    let e = embedding_f16_term(Term::Words(ids), table, rows, m.cfg.hidden, Term::Unset);
    lemma_embedding(Term::Words(ids), table, rows, m.cfg.hidden, Term::Unset);
    reveal(gathered);
    assert(value(Term::Words(ids), i) == Number::Word(ids[i])) by {
        reveal(value);
    }
    let (got, want) = (row_of(e, i, w), half_row(table, ids[i] as int, w));
    assert forall|c: int| 0 <= c < w implies got[c] == want[c] by {
        assert(got[c] == cell(e, i, c, w));
        assert(got[c] == half_cell(table, ids[i] * w + c));
    }
    assert(got =~= want);
    match m.embed_scale {
        Some(s) => lemma_scale_row(e, rows, m.cfg.hidden, s, i),
        None => {},
    }
}

/// Whether the rows of a flow are the hidden states of a batch of tokens after `n` blocks, and the
/// caches of these blocks remember all tokens.
pub open spec fn flowed<B: Block>(
    m: LanguageModel<B>,
    d: DeviceView,
    tokens: Seq<u32>,
    ids: Seq<u32>,
    k: Seq<Term>,
    v: Seq<Term>,
    f: Flow,
    n: int,
) -> bool {
    &&& f.k.len() == k.len()
    &&& f.v.len() == v.len()
    &&& forall|i: int|
        0 <= i < ids.len() ==> #[trigger] row_of(f.x, i, m.cfg.hidden as int) == states(
            m,
            d,
            tokens + ids,
            n,
        )[tokens.len() + i]
    &&& forall|l: int|
        0 <= l < n ==> (#[trigger] m.blocks@[l]).remembers(
            d,
            f.k[l],
            f.v[l],
            states(m, d, tokens + ids, l),
        )
    &&& forall|l: int|
        n <= l < m.blocks@.len() ==> #[trigger] f.k[l] == k[l] && f.v[l] == v[l]
}

/// Blocks make of a batch the hidden states of its tokens.
proof fn lemma_flow<B: Block>(
    m: LanguageModel<B>,
    d: DeviceView,
    tokens: Seq<u32>,
    ids: Seq<u32>,
    max_seq: usize,
    k: Seq<Term>,
    v: Seq<Term>,
    n: int,
)
    requires
        regular_model(m, d, ids.len() as int, tokens.len() as int),
        tokens.len() == 0 || ids.len() == 1,
        tokens.len() <= usize::MAX,
        remembers_tokens(m, d, k, v, tokens),
        0 <= n <= m.blocks@.len(),
    ensures
        flowed(
            m,
            d,
            tokens,
            ids,
            k,
            v,
            through(
                m.blocks@,
                n,
                d,
                (Flow {
                    x: embedded(m.embed_w.in_dev(d), m.embed_scale, ids, m.cfg.hidden),
                    k,
                    v,
                }),
                ids.len() as usize,
                tokens.len() as usize,
                max_seq,
            ),
            n,
        ),
    decreases n,
{
    let rows = ids.len() as usize;
    let base = tokens.len() as usize;
    let w = m.cfg.hidden as int;
    let all = tokens + ids;
    let x0 = embedded(m.embed_w.in_dev(d), m.embed_scale, ids, m.cfg.hidden);
    let start = Flow { x: x0, k, v };
    if n == 0 {
        assert forall|i: int| 0 <= i < ids.len() implies #[trigger] row_of(x0, i, w) == states(
            m,
            d,
            all,
            0,
        )[base + i] by {
            lemma_embedded(m, d, ids, i);
            assert(all[base + i] == ids[i]);
        }
    } else {
        lemma_flow(m, d, tokens, ids, max_seq, k, v, n - 1);
        let g = through(m.blocks@, n - 1, d, start, rows, base, max_seq);
        let b = m.blocks@[n - 1];
        let xs = states(m, d, tokens, n - 1);
        let ys = states(m, d, all, n - 1);
        lemma_states_causal(m, d, tokens, ids, n - 1);
        assert(xs.len() == base);
        assert(g.k[n - 1] == k[n - 1]);
        b.lemma_rows(d, g.x, rows, base, max_seq, k[n - 1], v[n - 1], xs);
        let f = through(m.blocks@, n, d, start, rows, base, max_seq);
        assert forall|i: int| 0 <= i <= rows implies xs + #[trigger] rows_of(g.x, i, w) == ys.take(
            base + i,
        ) by {
            let (p, q) = (xs + rows_of(g.x, i, w), ys.take(base + i));
            assert forall|t: int| 0 <= t < base + i implies p[t] == q[t] by {
                if t < base {
                    assert(ys.take(base as int)[t] == ys[t]);
                } else {
                    assert(row_of(g.x, t - base, w) == ys[base + (t - base)]);
                }
            }
            assert(p =~= q);
        }
        assert(xs + rows_of(g.x, rows as int, w) == ys.take(base + rows));
        assert(ys.take(base + rows) =~= ys);
        assert forall|i: int| 0 <= i < ids.len() implies #[trigger] row_of(f.x, i, w) == states(
            m,
            d,
            all,
            n,
        )[base + i] by {
            assert(xs + rows_of(g.x, i + 1, w) == ys.take(base + (i + 1)));
        }
        assert forall|l: int| 0 <= l < n implies (#[trigger] m.blocks@[l]).remembers(
            d,
            f.k[l],
            f.v[l],
            states(m, d, all, l),
        ) by {
            if l < n - 1 {
                assert(f.k[l] == g.k[l] && f.v[l] == g.v[l]);
            }
        }
        assert forall|l: int| n <= l < m.blocks@.len() implies #[trigger] f.k[l] == k[l] && f.v[l]
            == v[l] by {
            assert(f.k[l] == g.k[l]);
        }
        assert(flowed(m, d, tokens, ids, k, v, f, n));
    }
}

/// The logits of a step are those that follow all tokens so far, and the caches then remember all
/// of them: a prompt in one batch, or one token after what the caches remember. So the logits do
/// not depend on how the tokens were cut into steps.
pub proof fn lemma_step<B: Block>(
    m: LanguageModel<B>,
    d: DeviceView,
    tokens: Seq<u32>,
    ids: Seq<u32>,
    max_seq: usize,
    k: Seq<Term>,
    v: Seq<Term>,
    slice: bool,
)
    requires
        regular_model(m, d, ids.len() as int, tokens.len() as int),
        tokens.len() == 0 || ids.len() == 1,
        tokens.len() <= usize::MAX,
        remembers_tokens(m, d, k, v, tokens),
        slice || ids.len() == 1,
    ensures
        ({
            let f = m.sliced_logits(d, ids, tokens.len() as usize, max_seq, k, v, slice);
            &&& forall|j: int|
                0 <= j < m.cfg.vocab ==> #[trigger] value(f.x, j) == next_logits(
                    m,
                    d,
                    tokens + ids,
                )[j]
            &&& remembers_tokens(m, d, f.k, f.v, tokens + ids)
        }),
{
    let n = m.blocks@.len() as int;
    let rows = ids.len() as usize;
    let base = tokens.len() as usize;
    let (hidden, w) = (m.cfg.hidden, m.cfg.hidden as int);
    let all = tokens + ids;
    lemma_flow(m, d, tokens, ids, max_seq, k, v, n);
    lemma_states_causal(m, d, tokens, ids, n);
    let f = m.flow(d, ids, base, max_seq, k, v);
    let norm = m.norm.on(d);
    let xn = norm.of(f.x, rows);
    let last = m.last(d, f.x, rows, slice);
    let final_row = states(m, d, all, n).last();
    assert(row_of(f.x, rows - 1, w) == states(m, d, all, n)[base + (rows - 1)]);
    lemma_norm_row(norm, f.x, rows, rows - 1);
    assert(row_of(xn, rows - 1, w) == norm_row(norm, final_row));
    assert(row_of(last, 0, w) == norm_row(norm, final_row)) by {
        if slice {
            let at = (rows - 1) * w;
            assert(at >= 0 && at + w == rows * w) by (nonlinear_arith)
                requires
                    at == (rows - 1) * w,
                    rows >= 1,
                    w > 0,
            ;
            assert forall|c: int| 0 <= c < w implies row_of(last, 0, w)[c] == row_of(
                xn,
                rows - 1,
                w,
            )[c] by {
                lemma_copied(xn, at, w, Term::Unset, 0, c);
                assert(last == last_row(xn, rows as int, w));
                assert(0 * w + c == c);
                assert(value(last, c) == value(xn, at + c));
            }
            assert(row_of(last, 0, w) =~= row_of(xn, rows - 1, w));
        }
    }
    let head = m.head(d);
    lemma_linear(last, head, 1, hidden, m.cfg.vocab, Term::Unset);
    reveal(projected);
    let out = m.sliced_logits(d, ids, base, max_seq, k, v, slice);
    assert forall|j: int| 0 <= j < m.cfg.vocab implies #[trigger] value(out.x, j) == next_logits(
        m,
        d,
        all,
    )[j] by {
        assert(0 * (m.cfg.vocab as int) + j == j);
        assert(cell(out.x, 0, j, m.cfg.vocab as int) == value(out.x, j));
    }
}

/// Caches that remember no token do not have to hold anything, so a sequence can begin on any.
pub proof fn lemma_sequence_begins<B: Block>(
    m: LanguageModel<B>,
    d: DeviceView,
    k: Seq<Term>,
    v: Seq<Term>,
)
    requires
        k.len() == m.blocks@.len(),
        v.len() == m.blocks@.len(),
    ensures
        remembers_tokens(m, d, k, v, seq![]),
{
    assert forall|l: int| 0 <= l < m.blocks@.len() implies (#[trigger] m.blocks@[l]).remembers(
        d,
        k[l],
        v[l],
        states(m, d, seq![], l),
    ) by {
        assert(states(m, d, seq![], l) =~= seq![]);
        m.blocks@[l].lemma_remembers_nothing(d, k[l], v[l]);
    }
}

/// A prompt and then a token give the logits that the prompt with the token at its end gives at
/// once.
pub proof fn lemma_decode_continues_prefill<B: Block>(
    m: LanguageModel<B>,
    d: DeviceView,
    ids: Seq<u32>,
    token: u32,
    max_seq: usize,
    k: Seq<Term>,
    v: Seq<Term>,
    k2: Seq<Term>,
    v2: Seq<Term>,
    j: int,
)
    requires
        ids.len() > 0,
        regular_model(m, d, ids.len() as int, 0),
        regular_model(m, d, (ids.len() + 1) as int, 0),
        regular_model(m, d, 1, ids.len() as int),
        ids.len() < usize::MAX,
        k.len() == m.blocks@.len(),
        v.len() == m.blocks@.len(),
        k2.len() == m.blocks@.len(),
        v2.len() == m.blocks@.len(),
        0 <= j < m.cfg.vocab,
    ensures
        ({
            let f = m.logits(d, ids, 0, max_seq, k, v);
            value(
                m.logits(d, seq![token], ids.len() as usize, max_seq, f.k, f.v).x,
                j,
            ) == value(m.logits(d, ids.push(token), 0, max_seq, k2, v2).x, j)
        }),
{
    let none = Seq::<u32>::empty();
    lemma_sequence_begins(m, d, k, v);
    lemma_sequence_begins(m, d, k2, v2);
    lemma_step(m, d, none, ids, max_seq, k, v, ids.len() != 1);
    assert(none + ids =~= ids);
    let f = m.logits(d, ids, 0, max_seq, k, v);
    lemma_step(m, d, ids, seq![token], max_seq, f.k, f.v, false);
    assert(ids + seq![token] =~= ids.push(token));
    lemma_step(m, d, none, ids.push(token), max_seq, k2, v2, true);
    assert(none + ids.push(token) =~= ids.push(token));
}

} // verus!
