//! The greedy autoregressive loop. Tokenizer-free: it operates on token ids, leaving encoding and
//! decoding to the caller.
//!
//! Greedy selection runs on the GPU: each step reads back a single token id rather than the logits
//! of the whole vocabulary. The host submits what a step recorded and hands back the token that it
//! read.

use vstd::prelude::*;

use crate::coverage::{largest_of, lemma_argmax};
use crate::error::DType;
use crate::gpu::device::DeviceView;
use crate::gpu::elements::{value, Number};
use crate::gpu::memory::Term;
use crate::gpu::recorder::Recorder;
use crate::gpu::tensor::Tensor;
use crate::kernels::argmax_term;
use crate::models::model::{advanced, gave_back, terms, Flow};
use crate::models::sequence::{
    lemma_sequence_begins, lemma_step, next_logits, regular_model, remembers_tokens,
};
use crate::models::{lemma_model_step_given_back, Model};
use crate::nn::kv_cache::KvCache;
use crate::text::{dec, decimal};

verus! {

/// What is to be done next in a generation.
#[derive(Clone, Copy, Debug, PartialEq, Eq, Structural)]
pub enum Step {
    /// Run the whole prompt through the model.
    Prefill,
    /// Run `token` through the model at absolute position `pos`.
    Decode { token: u32, pos: usize },
    /// All tokens are generated.
    Done,
}

/// A greedy generation of `max_new` tokens after a prompt.
#[derive(Debug)]
pub struct Generation {
    prompt: Vec<u32>,
    max_new: usize,
    max_seq: usize,
    out: Vec<u32>,
}

/// A [`Generation`] as seen by specifications. `out` holds the tokens generated so far.
#[verifier::ext_equal]
pub struct GenerationView {
    pub prompt: Seq<u32>,
    pub max_new: nat,
    pub max_seq: nat,
    pub out: Seq<u32>,
}

impl View for Generation {
    type V = GenerationView;

    closed spec fn view(&self) -> GenerationView {
        GenerationView {
            prompt: self.prompt@,
            max_new: self.max_new as nat,
            max_seq: self.max_seq as nat,
            out: self.out@,
        }
    }
}

impl GenerationView {
    /// Whether the prompt and the tokens to generate find room in the caches, and no more tokens
    /// were generated than asked for.
    pub open spec fn wf(self) -> bool {
        &&& 0 < self.prompt.len()
        &&& self.prompt.len() + self.max_new <= self.max_seq <= usize::MAX
        &&& self.out.len() <= self.max_new
    }

    /// What is to be done next. The token that was generated last sits right behind the prompt and
    /// the tokens before it.
    pub open spec fn step(self) -> Step {
        if self.out.len() >= self.max_new {
            Step::Done
        } else if self.out.len() == 0 {
            Step::Prefill
        } else {
            Step::Decode {
                token: self.out.last(),
                pos: (self.prompt.len() + self.out.len() - 1) as usize,
            }
        }
    }

    /// The token ids that the next step runs through the model.
    pub open spec fn ids(self) -> Seq<u32> {
        if self.out.len() == 0 {
            self.prompt
        } else {
            seq![self.out.last()]
        }
    }

    /// The absolute position of the first of them.
    pub open spec fn pos(self) -> usize {
        if self.out.len() == 0 {
            0
        } else {
            (self.prompt.len() + self.out.len() - 1) as usize
        }
    }

    /// The generation with one more token.
    pub open spec fn with(self, token: u32) -> GenerationView {
        GenerationView { out: self.out.push(token), ..self }
    }
}

/// The text for a prompt that leaves no room for the tokens to generate.
pub open spec fn too_long_text(prompt: nat, max_new: nat, max_seq: nat) -> Seq<char> {
    "prompt ("@ + dec(prompt) + ") + max_new ("@ + dec(max_new) + ") exceeds max_seq ("@ + dec(
        max_seq,
    ) + ")"@
}

/// Says that a prompt leaves no room for the tokens to generate, where it does not.
pub fn too_long(prompt: usize, max_new: usize, max_seq: usize) -> (r: Option<String>)
    ensures
        match r {
            Some(t) => prompt + max_new > max_seq && t@ == too_long_text(
                prompt as nat,
                max_new as nat,
                max_seq as nat,
            ),
            None => prompt + max_new <= max_seq,
        },
        r is Some <==> overflows(prompt as nat, max_new as nat, max_seq as nat),
{
    if prompt <= max_seq && max_new <= max_seq - prompt {
        return None;
    }
    let mut t = "prompt (".to_owned();
    t.append(decimal(prompt as u64).as_str());
    t.append(") + max_new (");
    t.append(decimal(max_new as u64).as_str());
    t.append(") exceeds max_seq (");
    t.append(decimal(max_seq as u64).as_str());
    t.append(")");
    Some(t)
}

impl Generation {
    /// Begins the generation of `max_new` tokens after `prompt`, with caches for `max_seq`
    /// positions.
    pub fn new(prompt: Vec<u32>, max_new: usize, max_seq: usize) -> (r: Generation)
        requires
            0 < prompt@.len(),
            prompt@.len() + max_new <= max_seq,
        ensures
            r@.wf(),
            r@ == (GenerationView {
                prompt: prompt@,
                max_new: max_new as nat,
                max_seq: max_seq as nat,
                out: Seq::empty(),
            }),
    {
        Generation { prompt, max_new, max_seq, out: Vec::new() }
    }

    /// What is to be done next.
    pub fn next(&self) -> (r: Step)
        requires
            self@.wf(),
        ensures
            r == self@.step(),
    {
        let n = self.out.len();
        if n >= self.max_new {
            Step::Done
        } else if n == 0 {
            Step::Prefill
        } else {
            Step::Decode { token: self.out[n - 1], pos: self.prompt.len() + n - 1 }
        }
    }

    /// Tests whether the machine can address what the next step computes.
    pub fn in_range(&self, model: &Model) -> (r: bool)
        requires
            self@.wf(),
        ensures
            r == model.fits(self@.ids().len() as usize, self@.pos()),
    {
        let n = self.out.len();
        if n == 0 {
            model.in_range(self.prompt.len(), 0)
        } else {
            model.in_range(1, self.prompt.len() + n - 1)
        }
    }

    /// Records the next step and the greedy next token, returning the tensor that will hold the
    /// token. Records nothing when all tokens are generated.
    pub fn record(&self, model: &Model, rec: &mut Recorder, kv: &KvCache) -> (r: Option<Tensor>)
        requires
            self@.wf(),
            old(rec).wf(),
            model.ok(old(rec)@),
            model.apart(*kv, old(rec)@),
            model.fits(self@.ids().len() as usize, self@.pos()),
        ensures
            final(rec).wf(),
            r is None <==> self@.step() is Done,
            match r {
                None => *final(rec) == *old(rec),
                Some(t) => picked(*model, *kv, self@.ids(), self@.pos(), old(rec)@, final(rec)@, t),
            },
    {
        match self.next() {
            Step::Prefill => Some(model.prefill_argmax(rec, self.prompt.as_slice(), kv)),
            Step::Decode { token, pos } => Some(model.decode_argmax(rec, token, pos, kv)),
            Step::Done => None,
        }
    }

    /// Takes in the token that the last step generated.
    pub fn accept(&mut self, token: u32)
        requires
            old(self)@.wf(),
            !(old(self)@.step() is Done),
        ensures
            final(self)@.wf(),
            final(self)@ == old(self)@.with(token),
    {
        self.out.push(token);
    }

    /// The generated tokens.
    pub fn finish(self) -> (r: Vec<u32>)
        ensures
            r@ == self@.out,
    {
        self.out
    }
}

/// Whether `b` is `a` after `ids` were run through a model at position `pos`, with the index of the
/// largest logit in the tensor `t`.
pub open spec fn picked(
    model: Model,
    kv: KvCache,
    ids: Seq<u32>,
    pos: usize,
    a: DeviceView,
    b: DeviceView,
    t: Tensor,
) -> bool {
    let f = model.logits(a, ids, pos, kv.max_seq, terms(kv.k@, a), terms(kv.v@, a));
    &&& advanced(a, b, t, kv)
    &&& t.shape@ == seq![1usize]
    &&& t.dtype == DType::U32
    &&& t.in_dev(b) == argmax_term(f.x, model.vocab(), Term::Unset)
    &&& terms(kv.k@, b) == f.k
    &&& terms(kv.v@, b) == f.v
}

/// A generation is at its end exactly when it has as many tokens as were asked for; before that,
/// each token that is run through the model has a position within the caches.
pub proof fn lemma_generation(g: GenerationView)
    requires
        g.wf(),
    ensures
        g.step() is Done <==> g.out.len() == g.max_new,
        !(g.step() is Done) ==> g.pos() + g.ids().len() <= g.max_seq,
        !(g.step() is Done) ==> g.pos() + g.ids().len() == g.prompt.len() + g.out.len(),
        forall|token: u32|
            !(g.step() is Done) ==> (#[trigger] g.with(token)).wf() && g.with(token).out.len()
                == g.out.len() + 1,
{
}

/// The logits after a prompt and the first `n` of the tokens that follow it, run one by one through
/// a model whose caches held `k` and `v`.
pub open spec fn run(
    model: Model,
    d: DeviceView,
    prompt: Seq<u32>,
    tokens: Seq<u32>,
    max_seq: usize,
    k: Seq<Term>,
    v: Seq<Term>,
    n: nat,
) -> Flow
    decreases n,
{
    if n == 0 {
        model.logits(d, prompt, 0, max_seq, k, v)
    } else {
        let f = run(model, d, prompt, tokens, max_seq, k, v, (n - 1) as nat);
        model.logits(
            d,
            seq![tokens[n - 1]],
            (prompt.len() + n - 1) as usize,
            max_seq,
            f.k,
            f.v,
        )
    }
}

/// The states of a device in a generation: before and after each step, and the tensor that holds
/// the token of the step.
pub struct Trace {
    pub before: Seq<DeviceView>,
    pub after: Seq<DeviceView>,
    pub picks: Seq<Tensor>,
}

impl Trace {
    /// Whether these are the states of a generation that took `n` tokens in: each step runs what
    /// the generation says, and its tensor is given back before the next.
    pub open spec fn of(self, model: Model, kv: KvCache, g: GenerationView, n: nat) -> bool {
        &&& self.before.len() > n
        &&& self.after.len() > n
        &&& self.picks.len() > n
        &&& forall|i: int|
            0 <= i <= n ==> (#[trigger] self.before[i]).wf() && picked(
                model,
                kv,
                g.upto(i).ids(),
                g.upto(i).pos(),
                self.before[i],
                self.after[i],
                self.picks[i],
            )
        &&& forall|i: int|
            0 <= i < n ==> gave_back(
                #[trigger] self.after[i],
                self.before[i + 1],
                self.picks[i],
            )
    }
}

impl GenerationView {
    /// The generation when it had `n` tokens.
    pub open spec fn upto(self, n: int) -> GenerationView {
        GenerationView { out: self.out.take(n), ..self }
    }
}

/// A model is ready for each step of a generation, and computes the same in each.
proof fn lemma_ready(model: Model, kv: KvCache, g: GenerationView, trace: Trace, n: nat)
    requires
        n <= g.out.len(),
        trace.of(model, kv, g, n),
        model.ok(trace.before[0]),
        model.apart(kv, trace.before[0]),
    ensures
        model.ok(trace.before[n as int]),
        model.apart(kv, trace.before[n as int]),
        model.alike(trace.before[0], trace.before[n as int]),
        ({
            let d = trace.before[0];
            let f = run(
                model,
                d,
                g.prompt,
                g.out,
                kv.max_seq,
                terms(kv.k@, d),
                terms(kv.v@, d),
                n,
            );
            &&& trace.picks[n as int].in_dev(trace.after[n as int]) == argmax_term(
                f.x,
                model.vocab(),
                Term::Unset,
            )
            &&& terms(kv.k@, trace.after[n as int]) == f.k
            &&& terms(kv.v@, trace.after[n as int]) == f.v
        }),
    decreases n,
{
    let here = trace.before[n as int];
    assert(here.wf());
    if n > 0 {
        let m = (n - 1) as nat;
        lemma_ready(model, kv, g, trace, m);
        let (a, b, r) = (trace.before[m as int], trace.after[m as int], trace.picks[m as int]);
        assert(a.wf());
        assert(gave_back(b, here, r));
        lemma_model_step_given_back(model, kv, r, a, b, here);
        assert(g.out.take(n as int).last() == g.out[n - 1]);
    }
}

/// What each step of a generation leaves to be read back is the index of the largest logit after
/// the prompt and all the tokens that were read back before.
pub proof fn lemma_generated(model: Model, kv: KvCache, g: GenerationView, trace: Trace, n: nat)
    requires
        n <= g.out.len(),
        trace.of(model, kv, g, n),
        model.ok(trace.before[0]),
        model.apart(kv, trace.before[0]),
    ensures
        ({
            let d = trace.before[0];
            let f = run(
                model,
                d,
                g.prompt,
                g.out,
                kv.max_seq,
                terms(kv.k@, d),
                terms(kv.v@, d),
                n,
            );
            &&& trace.picks[n as int].in_dev(trace.after[n as int]) == argmax_term(
                f.x,
                model.vocab(),
                Term::Unset,
            )
            &&& terms(kv.k@, trace.after[n as int]) == f.k
            &&& terms(kv.v@, trace.after[n as int]) == f.v
        }),
{
    lemma_ready(model, kv, g, trace, n);
}

/// The logits for the token that follows a sequence.
pub open spec fn following(model: Model, d: DeviceView, tokens: Seq<u32>) -> Seq<Number> {
    match model {
        Model::Decoder(m) => next_logits(m, d, tokens),
        Model::Gemma4(m) => next_logits(m.model, d, tokens),
    }
}

/// Whether the sizes of a model fit together, and 32 bits hold what `rows` rows from `base` on ask
/// for.
pub open spec fn regular_sizes(model: Model, d: DeviceView, rows: int, base: int) -> bool {
    match model {
        Model::Decoder(m) => regular_model(m, d, rows, base),
        Model::Gemma4(m) => regular_model(m.model, d, rows, base),
    }
}

/// Whether caches hold what a model needs of a sequence of tokens.
pub open spec fn recalls(
    model: Model,
    d: DeviceView,
    k: Seq<Term>,
    v: Seq<Term>,
    tokens: Seq<u32>,
) -> bool {
    match model {
        Model::Decoder(m) => remembers_tokens(m, d, k, v, tokens),
        Model::Gemma4(m) => remembers_tokens(m.model, d, k, v, tokens),
    }
}

/// Whether a step left the logits that follow `tokens`, and caches that recall them.
#[verifier::opaque]
pub open spec fn reached(model: Model, d: DeviceView, f: Flow, tokens: Seq<u32>) -> bool {
    &&& forall|j: int|
        0 <= j < model.vocab() ==> #[trigger] value(f.x, j) == following(model, d, tokens)[j]
    &&& recalls(model, d, f.k, f.v, tokens)
}

proof fn lemma_reaches(
    model: Model,
    d: DeviceView,
    tokens: Seq<u32>,
    ids: Seq<u32>,
    max_seq: usize,
    k: Seq<Term>,
    v: Seq<Term>,
)
    requires
        regular_sizes(model, d, ids.len() as int, tokens.len() as int),
        tokens.len() == 0 || ids.len() == 1,
        tokens.len() <= usize::MAX,
        recalls(model, d, k, v, tokens),
    ensures
        reached(
            model,
            d,
            model.logits(d, ids, tokens.len() as usize, max_seq, k, v),
            tokens + ids,
        ),
{
    reveal(reached);
    match model {
        Model::Decoder(m) => lemma_step(m, d, tokens, ids, max_seq, k, v, ids.len() != 1),
        Model::Gemma4(m) => lemma_step(m.model, d, tokens, ids, max_seq, k, v, ids.len() != 1),
    }
}

proof fn lemma_run_reaches(
    model: Model,
    d: DeviceView,
    prompt: Seq<u32>,
    tokens: Seq<u32>,
    max_seq: usize,
    k: Seq<Term>,
    v: Seq<Term>,
    n: nat,
)
    requires
        k.len() == model.layers(),
        v.len() == model.layers(),
        n <= tokens.len(),
        prompt.len() + n <= usize::MAX,
        regular_sizes(model, d, prompt.len() as int, 0),
        forall|i: int| 0 <= i < n ==> #[trigger] regular_sizes(model, d, 1, prompt.len() + i),
    ensures
        reached(
            model,
            d,
            run(model, d, prompt, tokens, max_seq, k, v, n),
            prompt + tokens.take(n as int),
        ),
    decreases n,
{
    if n == 0 {
        let none = Seq::<u32>::empty();
        match model {
            Model::Decoder(m) => lemma_sequence_begins(m, d, k, v),
            Model::Gemma4(m) => lemma_sequence_begins(m.model, d, k, v),
        }
        lemma_reaches(model, d, none, prompt, max_seq, k, v);
        assert(none + prompt =~= prompt + tokens.take(0));
    } else {
        let m = (n - 1) as nat;
        let f = run(model, d, prompt, tokens, max_seq, k, v, m);
        let so_far = prompt + tokens.take(m as int);
        lemma_run_reaches(model, d, prompt, tokens, max_seq, k, v, m);
        assert(regular_sizes(model, d, 1, prompt.len() + (n - 1)));
        assert(recalls(model, d, f.k, f.v, so_far)) by {
            reveal(reached);
        }
        lemma_reaches(model, d, so_far, seq![tokens[n - 1]], max_seq, f.k, f.v);
        assert(so_far + seq![tokens[n - 1]] =~= prompt + tokens.take(n as int));
    }
}

/// Each token of a generation is the most likely one after the prompt and the tokens before it: it
/// is the index of the largest of the logits that the model gives for the whole sequence so far,
/// however the sequence was cut into steps.
pub proof fn lemma_greedy(model: Model, kv: KvCache, g: GenerationView, trace: Trace, n: nat)
    requires
        g.wf(),
        n <= g.out.len(),
        trace.of(model, kv, g, n),
        model.ok(trace.before[0]),
        model.apart(kv, trace.before[0]),
        regular_sizes(model, trace.before[0], g.prompt.len() as int, 0),
        forall|i: int|
            0 <= i < n ==> #[trigger] regular_sizes(
                model,
                trace.before[0],
                1,
                g.prompt.len() + i,
            ),
    ensures
        value(trace.picks[n as int].in_dev(trace.after[n as int]), 0) == Number::Largest(
            following(model, trace.before[0], g.prompt + g.out.take(n as int)),
        ),
{
    let d = trace.before[0];
    let (k, v) = (terms(kv.k@, d), terms(kv.v@, d));
    lemma_generated(model, kv, g, trace, n);
    lemma_run_reaches(model, d, g.prompt, g.out, kv.max_seq, k, v, n);
    let f = run(model, d, g.prompt, g.out, kv.max_seq, k, v, n);
    let want = following(model, d, g.prompt + g.out.take(n as int));
    lemma_argmax(f.x, model.vocab(), Term::Unset);
    reveal(largest_of);
    reveal(reached);
    assert(Seq::new(model.vocab() as nat, |c: int| value(f.x, c)) =~= want);
}

/// What a prefill leaves are the logits for the token that follows the prompt.
pub proof fn lemma_prompt_logits(
    model: Model,
    d: DeviceView,
    ids: Seq<u32>,
    max_seq: usize,
    k: Seq<Term>,
    v: Seq<Term>,
)
    requires
        regular_sizes(model, d, ids.len() as int, 0),
        k.len() == model.layers(),
        v.len() == model.layers(),
    ensures
        reached(model, d, model.prefilled(d, ids, max_seq, k, v), ids),
{
    let none = Seq::<u32>::empty();
    assert(none + ids =~= ids);
    reveal(reached);
    match model {
        Model::Decoder(m) => {
            lemma_sequence_begins(m, d, k, v);
            lemma_step(m, d, none, ids, max_seq, k, v, ids.len() != 1);
        },
        Model::Gemma4(m) => {
            lemma_sequence_begins(m.model, d, k, v);
            lemma_step(m.model, d, none, ids, max_seq, k, v, true);
        },
    }
}

/// Whether a prompt leaves no room for the tokens to generate.
pub open spec fn overflows(prompt: nat, max_new: nat, max_seq: nat) -> bool {
    prompt + max_new > max_seq
}

/// A prompt is too long exactly where its generation could not end within the caches: the last
/// token that is run through the model would have no position.
pub proof fn lemma_overflows(g: GenerationView)
    requires
        g.prompt.len() > 0,
        g.out.len() <= g.max_new,
        g.max_seq <= usize::MAX,
    ensures
        overflows(g.prompt.len(), g.max_new, g.max_seq) <==> !g.wf(),
{
}

} // verus!
