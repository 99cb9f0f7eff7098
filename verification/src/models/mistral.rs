//! Mistral / Llama-style loader: a decoder identical to Qwen3 minus QK-norm.

use vstd::prelude::*;

use crate::error::Result;
use crate::gpu::device::Device;
use crate::models::decoder::{
    decoder_sized, loads, DecoderNumbers, DecoderOpts, LayerOrder, StandardBlock,
};
use crate::models::model::LanguageModel;
use crate::source::WeightSource;

verus! {

/// Loads a Llama/Mistral-family model.
pub fn load<S: WeightSource>(
    dev: &mut Device,
    src: &S,
    max_seq: usize,
    numbers: DecoderNumbers,
) -> (r: Result<LanguageModel<StandardBlock>>)
    requires
        old(dev)@.wf(),
        decoder_sized(src.spec_config(), max_seq, numbers),
    ensures
        final(dev)@.wf(),
        loads(
            *src,
            (LayerOrder { has_qk_norm: false, norms_late: false }),
            max_seq,
            numbers,
            r,
            old(dev)@,
            final(dev)@,
        ),
{
    crate::models::decoder::load(dev, src, max_seq, DecoderOpts { has_qk_norm: false }, numbers)
}

} // verus!
