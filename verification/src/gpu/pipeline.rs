//! The account of compiled pipelines.

use vstd::prelude::*;

use crate::gpu::kernel::{key_of, lemma_keys_differ};
use crate::gpu::memory::Kernel;
use crate::text::same;

verus! {

/// What a pipeline is compiled from: a kernel and how many buffers it binds.
#[derive(Clone, Copy, Debug, PartialEq, Eq, Structural)]
pub struct PipelineInfo {
    pub kernel: Kernel,
    pub n_storage: usize,
    pub n_uniform: usize,
}

/// Keeps account of compiled pipelines, numbered in the order of their creation. A pipeline is kept
/// under the key of its kernel.
pub struct Pipelines {
    kept: Vec<PipelineInfo>,
}

impl View for Pipelines {
    type V = Seq<PipelineInfo>;

    closed spec fn view(&self) -> Seq<PipelineInfo> {
        self.kept@
    }
}

/// The number of the first pipeline that is kept under the key of `kernel`; the number of all
/// pipelines where none is.
pub open spec fn pipeline_at(kept: Seq<PipelineInfo>, kernel: Kernel) -> nat
    decreases kept.len(),
{
    if kept.len() == 0 {
        0
    } else if pipeline_at(kept.drop_last(), kernel) < kept.len() - 1 {
        pipeline_at(kept.drop_last(), kernel)
    } else if key_of(kept.last().kernel) == key_of(kernel) {
        (kept.len() - 1) as nat
    } else {
        kept.len()
    }
}

/// The pipelines that are kept once the one of `info` was asked for.
pub open spec fn with_pipeline(kept: Seq<PipelineInfo>, info: PipelineInfo) -> Seq<PipelineInfo> {
    if pipeline_at(kept, info.kernel) < kept.len() {
        kept
    } else {
        kept.push(info)
    }
}

proof fn lemma_found(kept: Seq<PipelineInfo>, kernel: Kernel, i: int)
    requires
        0 <= i <= kept.len(),
        i < kept.len() ==> key_of(kept[i].kernel) == key_of(kernel),
        forall|j: int| 0 <= j < i ==> key_of((#[trigger] kept[j]).kernel) != key_of(kernel),
    ensures
        pipeline_at(kept, kernel) == i,
    decreases kept.len(),
{
    if kept.len() > 0 {
        let d = kept.drop_last();
        if i < kept.len() {
            lemma_found(d, kernel, i);
        } else {
            lemma_found(d, kernel, i - 1);
            assert(kept[i - 1] == kept.last());
        }
    }
}

proof fn lemma_pipeline_at(kept: Seq<PipelineInfo>, kernel: Kernel)
    ensures
        pipeline_at(kept, kernel) <= kept.len(),
        pipeline_at(kept, kernel) < kept.len() ==> key_of(
            kept[pipeline_at(kept, kernel) as int].kernel,
        ) == key_of(kernel),
    decreases kept.len(),
{
    if kept.len() > 0 {
        lemma_pipeline_at(kept.drop_last(), kernel);
    }
}

impl Pipelines {
    /// No pipelines.
    pub fn new() -> (r: Self)
        ensures
            r@ == Seq::<PipelineInfo>::empty(),
    {
        Pipelines { kept: Vec::new() }
    }

    /// The number of the pipeline of a kernel, and whether it has to be created. A kernel whose key
    /// is known has its old number; another gets the next one and is recorded.
    pub fn pipeline(&mut self, kernel: Kernel, n_storage: usize, n_uniform: usize) -> (r: (
        usize,
        bool,
    ))
        ensures
            r.0 == pipeline_at(old(self)@, kernel),
            r.1 == (r.0 == old(self)@.len()),
            final(self)@ == with_pipeline(
                old(self)@,
                (PipelineInfo { kernel, n_storage, n_uniform }),
            ),
    {
        let key = kernel.key();
        let n = self.kept.len();
        let mut i: usize = 0;
        while i < n
            invariant
                i <= n,
                n == self@.len(),
                key@ == key_of(kernel),
                *self == *old(self),
                forall|j: int|
                    0 <= j < i ==> key_of((#[trigger] self@[j]).kernel) != key_of(kernel),
            decreases n - i,
        {
            if same(self.kept[i].kernel.key().as_str(), key.as_str()) {
                proof {
                    lemma_found(self@, kernel, i as int);
                }
                return (i, false);
            }
            i = i + 1;
        }
        proof {
            lemma_found(self@, kernel, n as int);
        }
        self.kept.push(PipelineInfo { kernel, n_storage, n_uniform });
        (n, true)
    }
}

/// Once a pipeline was asked for it is kept under its number: asking again, with any bindings,
/// gives that number with nothing to create, asking for others leaves it, and no other kernel
/// shares it.
pub proof fn lemma_pipeline_kept(kept: Seq<PipelineInfo>, info: PipelineInfo, other: PipelineInfo)
    ensures
        pipeline_at(with_pipeline(kept, info), info.kernel) == pipeline_at(kept, info.kernel),
        with_pipeline(with_pipeline(kept, info), (PipelineInfo { kernel: info.kernel, ..other }))
            == with_pipeline(kept, info),
        pipeline_at(with_pipeline(with_pipeline(kept, info), other), info.kernel) == pipeline_at(
            kept,
            info.kernel,
        ),
        pipeline_at(with_pipeline(kept, info), info.kernel) == pipeline_at(
            with_pipeline(kept, info),
            other.kernel,
        ) ==> info.kernel == other.kernel,
{
    let one = with_pipeline(kept, info);
    let two = with_pipeline(one, other);
    lemma_pipeline_at(kept, info.kernel);
    assert(kept.push(info).drop_last() =~= kept);
    assert(pipeline_at(one, info.kernel) == pipeline_at(kept, info.kernel));
    assert(one.push(other).drop_last() =~= one);
    lemma_pipeline_at(one, info.kernel);
    lemma_pipeline_at(one, other.kernel);
    if pipeline_at(one, info.kernel) == pipeline_at(one, other.kernel) {
        lemma_keys_differ(info.kernel, other.kernel);
    }
}

} // verus!
