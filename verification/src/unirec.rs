//! Recognition of text, formulas and tables in the image of a region.
//!
//! The region is scaled and laid out for the encoder, which runs once. The decoder then runs
//! once per token: it takes the token before, its position, what the encoder gave, and what the
//! decoder itself gave in the step before. Decoding is greedy and ends at the end token.

use crate::detokenize::{detokenize, detokenized};
use crate::greedy::{best_score, is_best, law_best_unique};
use crate::mapping::{Mapping, MappingError, MappingModel, mapping_of, texts};
use crate::json::parsed;
use crate::model::{Model, may_give, run, runs_safely};
use crate::pixels::{law_plane_count, law_plane_layout, pixel_bits, planes, to_planes};
use crate::size::{
    MAX_HEIGHT, MAX_WIDTH, aligned, fit, law_never_enlarged, law_target_beyond,
    law_target_in_limits, law_target_within, law_wide_stays_wide, target_size,
};
use crate::tensor::{
    allocatable, dims_of, integer_tensor, real_tensor, reals_of, tensor_dims, tensor_in_memory,
    tensor_integers, tensor_reals, volume,
};
use tract_onnx::prelude::{TValue, TractError};
use vstd::prelude::*;

verus! {

/// The count of layers of the decoder.
pub const LAYERS: usize = 6;

/// The count of attention heads of each layer.
pub const HEADS: usize = 6;

/// The length of what each head holds for a token.
pub const HEAD_DIM: usize = 128;

/// Positions are counted from behind the padding index.
pub const PADDING_INDEX: i64 = 1;

/// Why a region could not be recognized.
pub enum RecognizeError {
    /// The encoder or the decoder failed.
    Model(TractError),
    /// The encoder or the decoder gave fewer outputs than are read.
    Outputs,
    /// The scores could not be read.
    Tensor(TractError),
    /// The scores have no axis.
    ScoresShape,
    /// The scores are fewer than their last axis says.
    ScoresCount,
    /// The scores are not single-precision numbers.
    ScoresKind,
}

/// A recognizer: the two models, and the vocabulary.
pub struct UniRec {
    pub encoder: Model,
    pub decoder: Model,
    /// The text of each token.
    pub vocab: Vec<String>,
    /// The token that decoding starts from.
    pub bos: i64,
    /// The token that ends decoding.
    pub eos: i64,
}

/// A run of a model.
pub ghost struct Run {
    pub inputs: Seq<TValue>,
    pub outputs: Seq<TValue>,
}

/// How many values the decoder hands from one step to the next: two for each layer.
pub open spec fn kept() -> int {
    2 * LAYERS
}

/// Whether a tensor holds one integer, for one token of one region.
pub open spec fn holds_integer(t: TValue, n: int) -> bool {
    &&& tensor_dims(t) == seq![1usize, 1usize]
    &&& tensor_integers(t) matches Some(elements)
    &&& elements.len() == 1
    &&& elements[0] == n
    &&& tensor_reals(t) is None
}

/// Whether a tensor holds what a layer keeps before the first token.
pub open spec fn holds_nothing(t: TValue) -> bool {
    &&& tensor_dims(t) == seq![1usize, HEADS, 0usize, HEAD_DIM]
    &&& tensor_reals(t) == Some(Seq::<u32>::empty())
    &&& tensor_integers(t) is None
}

/// Whether `inputs` are those of the decoder in the given step: the token before, its position,
/// both values that the encoder gave, and what the layers have kept.
pub open spec fn decoder_takes(
    inputs: Seq<TValue>,
    token: i64,
    step: nat,
    cross_k: TValue,
    cross_v: TValue,
    past: Seq<TValue>,
) -> bool {
    &&& inputs.len() == 4 + past.len()
    &&& holds_integer(inputs[0], token as int)
    &&& holds_integer(inputs[1], PADDING_INDEX + 1 + step)
    &&& inputs[2] == cross_k
    &&& inputs[3] == cross_v
    &&& inputs.skip(4) == past
}

/// The last of the rows that a tensor with the given lengths and elements holds: as many elements
/// as the last axis says.
pub open spec fn last_row(dims: Seq<usize>, bits: Option<Seq<u32>>) -> Option<Seq<u32>> {
    match bits {
        Some(bits) if dims.len() > 0 && dims.last() <= bits.len() => Some(
            bits.skip(bits.len() - dims.last()),
        ),
        _ => None,
    }
}

/// The scores of the last token in what the decoder gave.
pub open spec fn last_scores(t: TValue) -> Option<Seq<u32>> {
    last_row(tensor_dims(t), tensor_reals(t))
}

/// Whether `token` is the one that is scored highest.
pub open spec fn chosen(t: TValue, token: i64) -> bool {
    &&& last_scores(t) matches Some(scores)
    &&& is_best(scores, token as int)
}

/// Whether there is no last row for the given reason: there is no axis, or too few elements, or
/// these are not single-precision numbers.
pub open spec fn no_last_row(dims: Seq<usize>, bits: Option<Seq<u32>>, e: RecognizeError) -> bool {
    match e {
        RecognizeError::ScoresShape => dims.len() == 0,
        RecognizeError::ScoresCount => dims.len() > 0 && (bits matches Some(bits) && bits.len()
            < dims.last()),
        RecognizeError::ScoresKind => dims.len() > 0 && bits is None,
        _ => false,
    }
}

/// Whether scores cannot be used for the given reason.
pub open spec fn unusable(t: TValue, e: RecognizeError) -> bool {
    if e is Tensor {
        tensor_dims(t).len() > 0 && !tensor_in_memory(t)
    } else {
        no_last_row(tensor_dims(t), tensor_reals(t), e)
    }
}

proof fn lemma_volume_push(dims: Seq<usize>, n: usize)
    ensures
        volume(dims.push(n)) == volume(dims) * n,
{
    assert(dims.push(n).drop_last() =~= dims);
}

proof fn lemma_volume_of(a: usize, b: usize, c: usize, d: usize)
    ensures
        volume(seq![a]) == a,
        volume(seq![a, b]) == a * b,
        volume(seq![a, b, c]) == a * b * c,
        volume(seq![a, b, c, d]) == a * b * c * d,
{
    let none = Seq::<usize>::empty();
    lemma_volume_push(none, a);
    lemma_volume_push(seq![a], b);
    lemma_volume_push(seq![a, b], c);
    lemma_volume_push(seq![a, b, c], d);
    assert(none.push(a) =~= seq![a]);
    assert(seq![a].push(b) =~= seq![a, b]);
    assert(seq![a, b].push(c) =~= seq![a, b, c]);
    assert(seq![a, b, c].push(d) =~= seq![a, b, c, d]);
    assert(1 * a == a);
}

proof fn lemma_pair_dims()
    ensures
        allocatable(seq![1usize, 1usize]),
        volume(seq![1usize, 1usize]) == 1,
{
    let d = seq![1usize, 1usize];
    lemma_volume_of(1, 1, 1, 1);
    assert forall|i: int, j: int| 0 <= i <= j <= d.len() implies 8 * volume(
        #[trigger] d.subrange(i, j),
    ) <= isize::MAX by {
        if j == i + 1 {
            assert(d.subrange(i, j) =~= seq![1usize]);
        } else if j == i + 2 {
            assert(d.subrange(i, j) =~= d);
        }
    }
}

proof fn lemma_four_dims(b: usize, c: usize, d: usize)
    requires
        b <= 2048,
        c <= 2048,
        d <= 2048,
        8 * (b * c) <= i32::MAX,
        8 * (c * d) <= i32::MAX,
        8 * (b * c * d) <= i32::MAX,
    ensures
        allocatable(seq![1usize, b, c, d]),
        volume(seq![1usize, b, c, d]) == b * c * d,
{
    let s = seq![1usize, b, c, d];
    lemma_volume_of(1, b, c, d);
    lemma_volume_of(b, c, d, 1);
    lemma_volume_of(c, d, 1, 1);
    lemma_volume_of(d, 1, 1, 1);
    assert(1 * b == b);
    assert forall|i: int, j: int| 0 <= i <= j <= s.len() implies 8 * volume(
        #[trigger] s.subrange(i, j),
    ) <= isize::MAX by {
        let part = s.subrange(i, j);
        if j == i + 1 {
            assert(part =~= seq![s[i]]);
        } else if j == i + 2 {
            assert(part =~= seq![s[i], s[i + 1]]);
        } else if j == i + 3 {
            assert(part =~= seq![s[i], s[i + 1], s[i + 2]]);
        } else if j == i + 4 {
            assert(part =~= s);
        }
    }
}

/// The inputs of the decoder in the given step.
pub fn decoder_inputs(
    token: i64,
    step: usize,
    cross_k: &TValue,
    cross_v: &TValue,
    past: &Vec<TValue>,
) -> (r: Result<Vec<TValue>, RecognizeError>)
    requires
        PADDING_INDEX + 1 + step <= i64::MAX,
    ensures
        r is Ok,
        r matches Ok(inputs) ==> decoder_takes(
            inputs@,
            token,
            step as nat,
            *cross_k,
            *cross_v,
            past@,
        ),
{
    proof {
        lemma_pair_dims();
    }
    let dims: Vec<usize> = vec![1usize, 1usize];
    assert(dims@ =~= seq![1usize, 1usize]);
    let position: i64 = PADDING_INDEX + 1 + step as i64;
    let mut inputs: Vec<TValue> = Vec::new();
    let ids: Vec<i64> = vec![token];
    match integer_tensor(dims.as_slice(), ids.as_slice()) {
        Ok(t) => inputs.push(t),
        Err(e) => return Err(RecognizeError::Tensor(e)),
    }
    let positions: Vec<i64> = vec![position];
    match integer_tensor(dims.as_slice(), positions.as_slice()) {
        Ok(t) => inputs.push(t),
        Err(e) => return Err(RecognizeError::Tensor(e)),
    }
    inputs.push(cross_k.clone());
    inputs.push(cross_v.clone());
    let mut i: usize = 0;
    while i < past.len()
        invariant
            i <= past@.len(),
            inputs@.len() == 4 + i,
            holds_integer(inputs@[0], token as int),
            holds_integer(inputs@[1], PADDING_INDEX + 1 + step),
            inputs@[2] == *cross_k,
            inputs@[3] == *cross_v,
            inputs@.skip(4) == past@.take(i as int),
        decreases past@.len() - i,
    {
        inputs.push(past[i].clone());
        i = i + 1;
        assert(inputs@.skip(4) =~= past@.take(i as int));
    }
    assert(past@.take(i as int) =~= past@);
    Ok(inputs)
}

/// What the layers have kept before the first token.
fn empty_past() -> (r: Result<Vec<TValue>, RecognizeError>)
    ensures
        r is Ok,
        r matches Ok(past) ==> past@.len() == kept() && forall|i: int|
            0 <= i < kept() ==> holds_nothing(#[trigger] past@[i]),
{
    proof {
        lemma_four_dims(HEADS, 0, HEAD_DIM);
    }
    let dims: Vec<usize> = vec![1usize, HEADS, 0usize, HEAD_DIM];
    assert(dims@ =~= seq![1usize, HEADS, 0usize, HEAD_DIM]);
    let none: Vec<u32> = Vec::new();
    let mut past: Vec<TValue> = Vec::new();
    while past.len() < 2 * LAYERS
        invariant
            past@.len() <= kept(),
            dims@ == seq![1usize, HEADS, 0usize, HEAD_DIM],
            allocatable(dims@),
            volume(dims@) == 0,
            none@ == Seq::<u32>::empty(),
            forall|i: int| 0 <= i < past@.len() ==> holds_nothing(#[trigger] past@[i]),
        decreases kept() - past@.len(),
    {
        match real_tensor(dims.as_slice(), none.as_slice()) {
            Ok(t) => past.push(t),
            Err(e) => return Err(RecognizeError::Tensor(e)),
        }
    }
    Ok(past)
}

/// The place of the highest score in the last row.
pub fn best_of_last_row(dims: &Vec<usize>, bits: Option<&Vec<u32>>) -> (r: Result<
    i64,
    RecognizeError,
>)
    requires
        bits matches Some(bits) ==> bits@.len() <= i64::MAX,
    ensures
        ({
            let elements = match bits {
                Some(bits) => Some(bits@),
                None => None,
            };
            match r {
                Ok(token) => last_row(dims@, elements) is Some && is_best(
                    last_row(dims@, elements)->0,
                    token as int,
                ),
                Err(e) => no_last_row(dims@, elements, e),
            }
        }),
{
    if dims.len() == 0 {
        return Err(RecognizeError::ScoresShape);
    }
    let count: usize = dims[dims.len() - 1];
    match bits {
        Some(bits) => {
            if bits.len() < count {
                return Err(RecognizeError::ScoresCount);
            }
            let start: usize = bits.len() - count;
            let last = vstd::slice::slice_subrange(bits.as_slice(), start, bits.len());
            assert(last@ =~= bits@.skip(bits@.len() - count));
            let best: usize = best_score(last);
            Ok(best as i64)
        },
        None => Err(RecognizeError::ScoresKind),
    }
}

/// The token that the decoder scores highest.
pub fn next_token(scores: &TValue) -> (r: Result<i64, RecognizeError>)
    ensures
        match r {
            Ok(token) => chosen(*scores, token),
            Err(e) => unusable(*scores, e),
        },
{
    let dims = dims_of(scores);
    if dims.len() == 0 {
        return Err(RecognizeError::ScoresShape);
    }
    match reals_of(scores) {
        Ok(Some(bits)) => best_of_last_row(&dims, Some(&bits)),
        Ok(None) => best_of_last_row(&dims, None),
        Err(e) => Err(RecognizeError::Tensor(e)),
    }
}

/// The token that the decoder takes in the step after the given tokens.
pub open spec fn token_before(bos: i64, tokens: Seq<i64>, step: int) -> i64 {
    if step == 0 {
        bos
    } else {
        tokens[step - 1]
    }
}

/// The tokens for which the decoder was run where decoding gave `ids`: those, and the end token
/// that ended it.
pub open spec fn scored(ids: Seq<i64>, eos: i64, max: nat) -> Seq<i64> {
    if ids.len() < max {
        ids.push(eos)
    } else {
        ids
    }
}

/// What the layers have kept for the step after the given runs.
pub open spec fn past_before(first: Seq<TValue>, runs: Seq<Run>, step: int) -> Seq<TValue> {
    if step == 0 {
        first
    } else {
        runs[step - 1].outputs.subrange(1, 1 + kept())
    }
}

impl UniRec {
    /// Whether `inputs` are those of the decoder in the given step.
    pub open spec fn step_begun(
        &self,
        cross: (TValue, TValue),
        first: Seq<TValue>,
        runs: Seq<Run>,
        tokens: Seq<i64>,
        step: int,
        inputs: Seq<TValue>,
    ) -> bool {
        decoder_takes(
            inputs,
            token_before(self.bos, tokens, step),
            step as nat,
            cross.0,
            cross.1,
            past_before(first, runs, step),
        )
    }

    /// Whether the decoder was run as it should be in the given step, the token is the one that
    /// it scored highest, and there is something to keep for the next step, if there is one.
    pub open spec fn step_done(
        &self,
        cross: (TValue, TValue),
        first: Seq<TValue>,
        runs: Seq<Run>,
        tokens: Seq<i64>,
        step: int,
    ) -> bool {
        &&& self.step_begun(cross, first, runs, tokens, step, runs[step].inputs)
        &&& may_give(self.decoder, runs[step].inputs, Some(runs[step].outputs))
        &&& runs[step].outputs.len() >= 1
        &&& chosen(runs[step].outputs[0], tokens[step])
        &&& tokens[step] != self.eos ==> runs[step].outputs.len() >= 1 + kept()
    }

    /// Whether the decoder was run once for each token, from the start on.
    pub open spec fn steps_done(
        &self,
        cross: (TValue, TValue),
        first: Seq<TValue>,
        runs: Seq<Run>,
        tokens: Seq<i64>,
    ) -> bool {
        &&& first.len() == kept()
        &&& forall|i: int| 0 <= i < kept() ==> holds_nothing(#[trigger] first[i])
        &&& runs.len() == tokens.len()
        &&& forall|i: int|
            0 <= i < tokens.len() ==> #[trigger] self.step_done(cross, first, runs, tokens, i)
    }

    /// Whether decoding gives the tokens `ids`: each is the one that is scored highest after
    /// those before it, none is the end token, and what follows them is the end token, unless
    /// there are as many as there may be.
    pub open spec fn gives(&self, cross: (TValue, TValue), max: nat, ids: Seq<i64>) -> bool {
        &&& ids.len() <= max
        &&& !ids.contains(self.eos)
        &&& exists|first: Seq<TValue>, runs: Seq<Run>| #[trigger]
            self.steps_done(cross, first, runs, scored(ids, self.eos, max))
    }

    /// Whether decoding fails for the given reason: after some tokens, none of which is the end
    /// token and which are fewer than there may be, the next step fails.
    pub open spec fn fails(&self, cross: (TValue, TValue), max: nat, e: RecognizeError) -> bool {
        exists|first: Seq<TValue>, runs: Seq<Run>, tokens: Seq<i64>, inputs: Seq<TValue>|
            {
                &&& #[trigger] self.steps_done(cross, first, runs, tokens)
                &&& tokens.len() < max
                &&& !tokens.contains(self.eos)
                &&& #[trigger] self.step_begun(
                    cross,
                    first,
                    runs,
                    tokens,
                    tokens.len() as int,
                    inputs,
                )
                &&& self.step_fails(inputs, e)
            }
    }

    /// Whether the decoder can be run in every step that decoding may come to.
    pub open spec fn can_decode(&self, cross: (TValue, TValue), max: nat) -> bool {
        forall|first: Seq<TValue>, runs: Seq<Run>, tokens: Seq<i64>, inputs: Seq<TValue>|
            {
                &&& #[trigger] self.steps_done(cross, first, runs, tokens)
                &&& tokens.len() < max
                &&& !tokens.contains(self.eos)
                &&& #[trigger] self.step_begun(
                    cross,
                    first,
                    runs,
                    tokens,
                    tokens.len() as int,
                    inputs,
                )
            } ==> runs_safely(self.decoder, inputs)
    }

    /// Whether a step with the given inputs fails: the decoder fails, gives no scores, gives
    /// scores that cannot be used, or gives too little to keep after a token that does not end
    /// decoding.
    pub open spec fn step_fails(&self, inputs: Seq<TValue>, e: RecognizeError) -> bool {
        if e is Model {
            may_give(self.decoder, inputs, None)
        } else {
            exists|outputs: Seq<TValue>| #[trigger]
                may_give(self.decoder, inputs, Some(outputs)) && self.outputs_fail(outputs, e)
        }
    }

    /// Whether a step fails after which the decoder gave `outputs`.
    pub open spec fn outputs_fail(&self, outputs: Seq<TValue>, e: RecognizeError) -> bool {
        match e {
            RecognizeError::Model(_) => false,
            RecognizeError::Outputs => outputs.len() == 0 || (outputs.len() < 1 + kept() && exists|
                token: i64,
            | #[trigger]
                chosen(outputs[0], token) && token != self.eos),
            _ => outputs.len() > 0 && unusable(outputs[0], e),
        }
    }

    /// The token that follows where the decoder gave `outputs`.
    pub fn token_after(&self, outputs: &Vec<TValue>) -> (r: Result<i64, RecognizeError>)
        ensures
            match r {
                Ok(token) => outputs@.len() >= 1 && chosen(outputs@[0], token) && (token
                    != self.eos ==> outputs@.len() >= 1 + kept()),
                Err(e) => self.outputs_fail(outputs@, e),
            },
    {
        if outputs.len() == 0 {
            return Err(RecognizeError::Outputs);
        }
        let token: i64 = match next_token(&outputs[0]) {
            Ok(token) => token,
            Err(e) => return Err(e),
        };
        if token != self.eos && outputs.len() < 1 + 2 * LAYERS {
            assert(chosen(outputs@[0], token));
            return Err(RecognizeError::Outputs);
        }
        Ok(token)
    }

    /// Decodes what the encoder gave, one token after the other.
    pub fn decode(&self, cross_k: &TValue, cross_v: &TValue, max_tokens: usize) -> (r: Result<
        Vec<i64>,
        RecognizeError,
    >)
        requires
            self.can_decode((*cross_k, *cross_v), max_tokens as nat),
            max_tokens <= isize::MAX / 8,
        ensures
            match r {
                Ok(ids) => self.gives((*cross_k, *cross_v), max_tokens as nat, ids@),
                Err(e) => self.fails((*cross_k, *cross_v), max_tokens as nat, e),
            },
    {
        let mut ids: Vec<i64> = Vec::new();
        let mut token: i64 = self.bos;
        let mut past = match empty_past() {
            Ok(past) => past,
            Err(e) => return Err(e),
        };
        let ghost first = past@;
        let ghost mut runs: Seq<Run> = Seq::empty();
        let ghost cross = (*cross_k, *cross_v);
        let mut step: usize = 0;
        while step < max_tokens
            invariant
                self.can_decode(cross, max_tokens as nat),
                max_tokens <= isize::MAX / 8,
                step <= max_tokens,
                ids@.len() == step,
                !ids@.contains(self.eos),
                cross == (*cross_k, *cross_v),
                self.steps_done(cross, first, runs, ids@),
                token == token_before(self.bos, ids@, step as int),
                past@ == past_before(first, runs, step as int),
                past@.len() == kept(),
            decreases max_tokens - step,
        {
            let inputs = match decoder_inputs(token, step, cross_k, cross_v, &past) {
                Ok(inputs) => inputs,
                Err(e) => return Err(e),
            };
            let ghost given = inputs@;
            assert(self.step_begun(cross, first, runs, ids@, step as int, given));
            let outputs = match run(&self.decoder, inputs) {
                Ok(outputs) => outputs,
                Err(e) => {
                    assert(self.step_fails(given, RecognizeError::Model(e)));
                    return Err(RecognizeError::Model(e));
                },
            };
            token =
            match self.token_after(&outputs) {
                Ok(token) => token,
                Err(e) => {
                    assert(self.step_fails(given, e));
                    return Err(e);
                },
            };
            proof {
                let more = runs.push(Run { inputs: given, outputs: outputs@ });
                let tokens = ids@.push(token);
                assert forall|i: int| 0 <= i < tokens.len() implies #[trigger] self.step_done(
                    cross,
                    first,
                    more,
                    tokens,
                    i,
                ) by {
                    if i < step {
                        assert(self.step_done(cross, first, runs, ids@, i));
                    }
                }
                assert(self.steps_done(cross, first, more, tokens));
                runs = more;
            }
            if token == self.eos {
                assert(self.steps_done(
                    cross,
                    first,
                    runs,
                    scored(ids@, self.eos, max_tokens as nat),
                ));
                return Ok(ids);
            }
            ids.push(token);
            past = kept_values(&outputs);
            step = step + 1;
        }
        assert(self.steps_done(cross, first, runs, scored(ids@, self.eos, max_tokens as nat)));
        Ok(ids)
    }
}

/// Whether `inputs` are those of the encoder for a region that was scaled to `tw` by `th` pixels.
pub open spec fn encoder_takes(inputs: Seq<TValue>, small: Seq<u8>, tw: usize, th: usize) -> bool {
    &&& inputs.len() == 1
    &&& tensor_dims(inputs[0]) == seq![1usize, 3usize, th, tw]
    &&& tensor_reals(inputs[0]) == Some(planes(small, tw as nat, th as nat))
    &&& tensor_integers(inputs[0]) is None
}

/// What the encoder takes for a region that was scaled to `tw` by `th` pixels.
pub fn encoder_inputs(small: &[u8], tw: usize, th: usize) -> (r: Result<
    Vec<TValue>,
    RecognizeError,
>)
    requires
        tw <= MAX_WIDTH,
        th <= MAX_HEIGHT,
        3 * (tw * th) <= small.len(),
    ensures
        r is Ok,
        r matches Ok(inputs) ==> encoder_takes(inputs@, small@, tw, th),
{
    let pixels = to_planes(small, tw, th);
    let dims: Vec<usize> = vec![1usize, 3usize, th, tw];
    assert(dims@ =~= seq![1usize, 3usize, th, tw]);
    proof {
        assert(3 * th * tw <= 3 * 1408 * 960) by (nonlinear_arith)
            requires
                tw <= 960,
                th <= 1408,
        ;
        assert(3 * th * tw == 3 * (tw * th)) by (nonlinear_arith);
        assert(th * tw <= 1408 * 960) by (nonlinear_arith)
            requires
                tw <= 960,
                th <= 1408,
        ;
        lemma_four_dims(3, th, tw);
    }
    match real_tensor(dims.as_slice(), pixels.as_slice()) {
        Ok(t) => {
            let mut inputs: Vec<TValue> = Vec::new();
            inputs.push(t);
            Ok(inputs)
        },
        Err(e) => Err(RecognizeError::Tensor(e)),
    }
}

/// The size to which a region is scaled.
pub open spec fn target(w: usize, h: usize) -> (usize, usize) {
    (aligned(fit(w as nat, h as nat).0) as usize, aligned(fit(w as nat, h as nat).1) as usize)
}

/// Whether `resize` can scale a region to the size that is right for it, and what it gives has a
/// value for each color of each pixel.
pub open spec fn can_resize<R: Fn(&[u8], usize, usize, usize, usize) -> Vec<u8>>(
    resize: R,
    rgb: &[u8],
    w: usize,
    h: usize,
) -> bool {
    let (tw, th) = target(w, h);
    &&& call_requires(resize, (rgb, w, h, tw, th))
    &&& forall|small: Vec<u8>| #[trigger]
        call_ensures(resize, (rgb, w, h, tw, th), small) ==> 3 * (tw * th) <= small@.len()
}

/// Whether a region was scaled to `small`, to the size that is right for it, and `inputs` are
/// those of the encoder for it.
pub open spec fn prepared<R: Fn(&[u8], usize, usize, usize, usize) -> Vec<u8>>(
    resize: R,
    rgb: &[u8],
    w: usize,
    h: usize,
    small: Vec<u8>,
    inputs: Seq<TValue>,
) -> bool {
    let (tw, th) = target(w, h);
    &&& call_ensures(resize, (rgb, w, h, tw, th), small)
    &&& encoder_takes(inputs, small@, tw, th)
}

impl UniRec {
    /// Whether `outcome` is what the encoder may give for a region, or that it may fail.
    pub open spec fn encodes<R: Fn(&[u8], usize, usize, usize, usize) -> Vec<u8>>(
        &self,
        resize: R,
        rgb: &[u8],
        w: usize,
        h: usize,
        outcome: Option<Seq<TValue>>,
    ) -> bool {
        exists|small: Vec<u8>, inputs: Seq<TValue>| #[trigger]
            prepared(resize, rgb, w, h, small, inputs) && may_give(self.encoder, inputs, outcome)
    }

    /// Whether the tokens of a region are `ids`.
    pub open spec fn recognizes<R: Fn(&[u8], usize, usize, usize, usize) -> Vec<u8>>(
        &self,
        resize: R,
        rgb: &[u8],
        w: usize,
        h: usize,
        max: nat,
        ids: Seq<i64>,
    ) -> bool {
        exists|outputs: Seq<TValue>|
            {
                &&& #[trigger] self.encodes(resize, rgb, w, h, Some(outputs))
                &&& outputs.len() >= 3
                &&& self.gives((outputs[1], outputs[2]), max, ids)
            }
    }

    /// Whether a region cannot be recognized for the given reason: the encoder fails, gives too
    /// little, or what it gives cannot be decoded.
    pub open spec fn recognition_fails<R: Fn(&[u8], usize, usize, usize, usize) -> Vec<u8>>(
        &self,
        resize: R,
        rgb: &[u8],
        w: usize,
        h: usize,
        max: nat,
        e: RecognizeError,
    ) -> bool {
        ||| e is Model && self.encodes(resize, rgb, w, h, None)
        ||| exists|outputs: Seq<TValue>| #[trigger]
            self.encodes(resize, rgb, w, h, Some(outputs)) && (if outputs.len() < 3 {
                e is Outputs
            } else {
                self.fails((outputs[1], outputs[2]), max, e)
            })
    }

    /// Whether both models can be run on everything that recognition may hand to them.
    pub open spec fn can_recognize<R: Fn(&[u8], usize, usize, usize, usize) -> Vec<u8>>(
        &self,
        resize: R,
        rgb: &[u8],
        w: usize,
        h: usize,
        max: nat,
    ) -> bool {
        &&& forall|small: Vec<u8>, inputs: Seq<TValue>| #[trigger]
            prepared(resize, rgb, w, h, small, inputs) ==> runs_safely(self.encoder, inputs)
        &&& forall|outputs: Seq<TValue>| #[trigger]
            self.encodes(resize, rgb, w, h, Some(outputs)) && outputs.len() >= 3
                ==> self.can_decode((outputs[1], outputs[2]), max)
    }

    /// Whether `outcome` is what recognition may come to: a text, or a reason why there is none.
    pub open spec fn comes_to<R: Fn(&[u8], usize, usize, usize, usize) -> Vec<u8>>(
        &self,
        resize: R,
        rgb: &[u8],
        w: usize,
        h: usize,
        max: nat,
        outcome: Result<Seq<char>, RecognizeError>,
    ) -> bool {
        match outcome {
            Ok(text) => exists|ids: Seq<i64>| #[trigger]
                self.recognizes(resize, rgb, w, h, max, ids) && text == detokenized(
                    texts(self.vocab@),
                    ids,
                ),
            Err(e) => self.recognition_fails(resize, rgb, w, h, max, e),
        }
    }

    /// Recognizes a region of `w` by `h` pixels, given as interleaved color values: its text, its
    /// formula, or its table, whatever it holds. `resize` scales the region from its size to
    /// another.
    pub fn recognize<R: Fn(&[u8], usize, usize, usize, usize) -> Vec<u8>>(
        &self,
        rgb: &[u8],
        w: usize,
        h: usize,
        max_tokens: usize,
        resize: R,
    ) -> (r: Result<String, RecognizeError>)
        requires
            can_resize(resize, rgb, w, h),
            self.can_recognize(resize, rgb, w, h, max_tokens as nat),
            max_tokens <= isize::MAX / 8,
        ensures
            self.comes_to(
                resize,
                rgb,
                w,
                h,
                max_tokens as nat,
                match r {
                    Ok(text) => Ok(text@),
                    Err(e) => Err(e),
                },
            ),
    {
        let (tw, th) = target_size(w, h);
        proof {
            law_target_in_limits(w as nat, h as nat);
        }
        let small = resize(rgb, w, h, tw, th);
        let inputs = match encoder_inputs(small.as_slice(), tw, th) {
            Ok(inputs) => inputs,
            Err(e) => return Err(e),
        };
        assert(prepared(resize, rgb, w, h, small, inputs@));
        let outputs = match run(&self.encoder, inputs) {
            Ok(outputs) => outputs,
            Err(e) => return Err(RecognizeError::Model(e)),
        };
        assert(self.encodes(resize, rgb, w, h, Some(outputs@)));
        if outputs.len() < 3 {
            return Err(RecognizeError::Outputs);
        }
        let ids = match self.decode(&outputs[1], &outputs[2], max_tokens) {
            Ok(ids) => ids,
            Err(e) => return Err(e),
        };
        assert(self.recognizes(resize, rgb, w, h, max_tokens as nat, ids@));
        Ok(self.detokenize(ids.as_slice()))
    }

    /// The text that a list of tokens stands for.
    pub fn detokenize(&self, ids: &[i64]) -> (r: String)
        ensures
            r@ == detokenized(texts(self.vocab@), ids@),
    {
        detokenize(&self.vocab, ids)
    }

    /// A recognizer with the given models and the vocabulary of the given tokenizer mapping.
    pub fn new(encoder: Model, decoder: Model, mapping: &[u8]) -> (r: Result<Self, MappingError>)
        ensures
            match r {
                Ok(unirec) => unirec.encoder == encoder && unirec.decoder == decoder && parsed(
                    mapping@,
                ) is Some && mapping_of(parsed(mapping@)->0) == Ok::<_, MappingError>(
                    MappingModel {
                        vocab: texts(unirec.vocab@),
                        bos: unirec.bos,
                        eos: unirec.eos,
                    },
                ),
                Err(e) => if parsed(mapping@) is None {
                    e == MappingError::Malformed
                } else {
                    mapping_of(parsed(mapping@)->0) == Err::<MappingModel, _>(e)
                },
            },
    {
        match Mapping::from_json(mapping) {
            Ok(m) => Ok(UniRec { encoder, decoder, vocab: m.vocab, bos: m.bos, eos: m.eos }),
            Err(e) => Err(e),
        }
    }
}

/// What the layers keep of what the decoder gave.
fn kept_values(outputs: &Vec<TValue>) -> (r: Vec<TValue>)
    requires
        outputs@.len() >= 1 + kept(),
    ensures
        r@ == outputs@.subrange(1, 1 + kept()),
{
    let mut r: Vec<TValue> = Vec::new();
    let mut i: usize = 0;
    while i < 2 * LAYERS
        invariant
            i <= kept(),
            outputs@.len() >= 1 + kept(),
            r@ == outputs@.subrange(1, 1 + i),
        decreases kept() - i,
    {
        r.push(outputs[1 + i].clone());
        i = i + 1;
        assert(r@ =~= outputs@.subrange(1, 1 + i));
    }
    r
}

/// Whether two tensors hold the same.
pub open spec fn same_tensor(a: TValue, b: TValue) -> bool {
    ||| a == b
    ||| {
        &&& tensor_dims(a) == tensor_dims(b)
        &&& tensor_integers(a) == tensor_integers(b)
        &&& tensor_reals(a) == tensor_reals(b)
        &&& tensor_integers(a) is Some || tensor_reals(a) is Some
    }
}

/// Whether the tensors of two lists hold the same.
pub open spec fn same_tensors(a: Seq<TValue>, b: Seq<TValue>) -> bool {
    a.len() == b.len() && forall|i: int| 0 <= i < a.len() ==> same_tensor(#[trigger] a[i], b[i])
}

/// Whether two runs of a model came to the same: the same outputs, or a failure.
pub open spec fn same_outcome(x: Option<Seq<TValue>>, y: Option<Seq<TValue>>) -> bool {
    match (x, y) {
        (Some(x), Some(y)) => same_tensors(x, y),
        (None, None) => true,
        _ => false,
    }
}

/// Whether a model comes to the same for the same inputs.
pub open spec fn repeatable(model: Model) -> bool {
    forall|
        a: Seq<TValue>,
        b: Seq<TValue>,
        x: Option<Seq<TValue>>,
        y: Option<Seq<TValue>>,
    |
        same_tensors(a, b) && #[trigger] may_give(model, a, x) && #[trigger] may_give(model, b, y)
            ==> same_outcome(x, y)
}

/// Whether what a model gives first can be read whenever it is asked for.
pub open spec fn readable(model: Model) -> bool {
    forall|inputs: Seq<TValue>, outputs: Seq<TValue>| #[trigger]
        may_give(model, inputs, Some(outputs)) && outputs.len() > 0 ==> tensor_in_memory(outputs[0])
}

/// Whether a region is scaled to the same pixels each time.
pub open spec fn resizes_alike<R: Fn(&[u8], usize, usize, usize, usize) -> Vec<u8>>(
    resize: R,
    rgb: &[u8],
    w: usize,
    h: usize,
) -> bool {
    let (tw, th) = target(w, h);
    forall|a: Vec<u8>, b: Vec<u8>| #[trigger]
        call_ensures(resize, (rgb, w, h, tw, th), a) && #[trigger] call_ensures(
            resize,
            (rgb, w, h, tw, th),
            b,
        ) ==> a@ == b@
}

impl UniRec {
    /// In a step that two runs come to alike, the decoder takes the same inputs.
    proof fn lemma_same_inputs(
        &self,
        cross: ((TValue, TValue), (TValue, TValue)),
        first: (Seq<TValue>, Seq<TValue>),
        runs: (Seq<Run>, Seq<Run>),
        s: Seq<i64>,
        t: Seq<i64>,
        step: int,
        a: Seq<TValue>,
        b: Seq<TValue>,
    )
        requires
            same_tensor(cross.0.0, cross.1.0),
            same_tensor(cross.0.1, cross.1.1),
            self.step_begun(cross.0, first.0, runs.0, s, step, a),
            self.step_begun(cross.1, first.1, runs.1, t, step, b),
            step >= 0,
            step > 0 ==> s[step - 1] == t[step - 1],
            same_tensors(
                past_before(first.0, runs.0, step),
                past_before(first.1, runs.1, step),
            ),
        ensures
            same_tensors(a, b),
    {
        let p = past_before(first.0, runs.0, step);
        let q = past_before(first.1, runs.1, step);
        assert forall|i: int| 0 <= i < a.len() implies same_tensor(#[trigger] a[i], b[i]) by {
            if i < 2 {
                assert(tensor_integers(a[i])->0 =~= tensor_integers(b[i])->0);
            } else if i >= 4 {
                assert(a[i] == a.skip(4)[i - 4]);
                assert(b[i] == b.skip(4)[i - 4]);
                assert(same_tensor(p[i - 4], q[i - 4]));
            }
        }
    }

    proof fn lemma_same_steps(
        &self,
        cross: ((TValue, TValue), (TValue, TValue)),
        first: (Seq<TValue>, Seq<TValue>),
        runs: (Seq<Run>, Seq<Run>),
        s: Seq<i64>,
        t: Seq<i64>,
        count: int,
    )
        requires
            repeatable(self.decoder),
            same_tensor(cross.0.0, cross.1.0),
            same_tensor(cross.0.1, cross.1.1),
            self.steps_done(cross.0, first.0, runs.0, s),
            self.steps_done(cross.1, first.1, runs.1, t),
            0 <= count <= s.len(),
            count <= t.len(),
            forall|i: int| 0 <= i < count - 1 ==> #[trigger] s[i] != self.eos,
        ensures
            forall|i: int| 0 <= i < count ==> #[trigger] s[i] == t[i],
            count == 0 || s[count - 1] != self.eos ==> same_tensors(
                past_before(first.0, runs.0, count),
                past_before(first.1, runs.1, count),
            ),
        decreases count,
    {
        if count > 0 {
            let step = count - 1;
            self.lemma_same_steps(cross, first, runs, s, t, step);
            assert(self.step_done(cross.0, first.0, runs.0, s, step));
            assert(self.step_done(cross.1, first.1, runs.1, t, step));
            if step > 0 {
                assert(s[step - 1] == t[step - 1]);
            }
            self.lemma_same_inputs(
                cross,
                first,
                runs,
                s,
                t,
                step,
                runs.0[step].inputs,
                runs.1[step].inputs,
            );
            let x = runs.0[step].outputs;
            let y = runs.1[step].outputs;
            assert(same_outcome(Some(x), Some(y)));
            assert(same_tensor(x[0], y[0]));
            law_best_unique(
                last_scores(x[0])->0,
                s[step] as int,
                t[step] as int,
            );
            if s[step] != self.eos {
                assert forall|i: int| 0 <= i < kept() implies same_tensor(
                    #[trigger] x.subrange(1, 1 + kept())[i],
                    y.subrange(1, 1 + kept())[i],
                ) by {
                    assert(same_tensor(x[1 + i], y[1 + i]));
                }
            }
        }
    }

    proof fn lemma_limit_cuts(
        &self,
        cross: ((TValue, TValue), (TValue, TValue)),
        lower: nat,
        max: nat,
        a: Seq<i64>,
        b: Seq<i64>,
    )
        requires
            repeatable(self.decoder),
            same_tensor(cross.0.0, cross.1.0),
            same_tensor(cross.0.1, cross.1.1),
            lower <= max,
            self.gives(cross.0, lower, a),
            self.gives(cross.1, max, b),
        ensures
            a == b.take(if b.len() < lower { b.len() as int } else { lower as int }),
    {
        let s = scored(a, self.eos, lower);
        let t = scored(b, self.eos, max);
        let (p, x) = choose|first: Seq<TValue>, runs: Seq<Run>| #[trigger]
            self.steps_done(cross.0, first, runs, s);
        let (q, y) = choose|first: Seq<TValue>, runs: Seq<Run>| #[trigger]
            self.steps_done(cross.1, first, runs, t);
        let count = if s.len() < t.len() {
            s.len() as int
        } else {
            t.len() as int
        };
        assert forall|i: int| 0 <= i < count - 1 implies #[trigger] s[i] != self.eos by {
            assert(a.contains(a[i]));
        }
        self.lemma_same_steps(cross, (p, q), (x, y), s, t, count);
        if a.len() < lower && a.len() < b.len() {
            let i = a.len() as int;
            assert(s[i] == t[i]);
            assert(b[i] == self.eos);
        }
        if b.len() < a.len() {
            let i = b.len() as int;
            assert(s[i] == t[i]);
            assert(a[i] == self.eos);
        }
        assert forall|i: int| 0 <= i < a.len() && i < b.len() implies a[i] == b[i] by {
            assert(s[i] == t[i]);
        }
        assert(a =~= b.take(if b.len() < lower { b.len() as int } else { lower as int }));
    }

    /// A step on the same inputs as one that was done cannot fail.
    #[verifier::spinoff_prover]
    proof fn lemma_step_cannot_fail(
        &self,
        done: Run,
        token: i64,
        inputs: Seq<TValue>,
        e: RecognizeError,
    )
        requires
            repeatable(self.decoder),
            readable(self.decoder),
            may_give(self.decoder, done.inputs, Some(done.outputs)),
            done.outputs.len() >= 1,
            chosen(done.outputs[0], token),
            token != self.eos ==> done.outputs.len() >= 1 + kept(),
            same_tensors(done.inputs, inputs),
        ensures
            !self.step_fails(inputs, e),
    {
        let given = done.outputs;
        if self.step_fails(inputs, e) {
            if e is Model {
                assert(may_give(self.decoder, inputs, None));
                assert(same_outcome(Some(given), None));
            } else {
                let outputs = choose|outputs: Seq<TValue>| #[trigger]
                    may_give(self.decoder, inputs, Some(outputs)) && self.outputs_fail(outputs, e);
                assert(may_give(self.decoder, inputs, Some(outputs)));
                assert(same_outcome(Some(given), Some(outputs)));
                assert(same_tensor(given[0], outputs[0]));
                assert(last_scores(given[0]) == last_scores(outputs[0]));
                assert(tensor_in_memory(outputs[0]));
                if e is Outputs {
                    let other = choose|other: i64| #[trigger]
                        chosen(outputs[0], other) && other != self.eos;
                    law_best_unique(last_scores(given[0])->0, token as int, other as int);
                }
            }
        }
    }

    /// Where decoding gave tokens, steps that lead to no end token come to no step that was not
    /// done, and to the same inputs.
    #[verifier::spinoff_prover]
    proof fn lemma_step_was_done(
        &self,
        cross: ((TValue, TValue), (TValue, TValue)),
        max: nat,
        ids: Seq<i64>,
        first: (Seq<TValue>, Seq<TValue>),
        runs: (Seq<Run>, Seq<Run>),
        tokens: Seq<i64>,
        inputs: Seq<TValue>,
    )
        requires
            repeatable(self.decoder),
            same_tensor(cross.0.0, cross.1.0),
            same_tensor(cross.0.1, cross.1.1),
            ids.len() <= max,
            !ids.contains(self.eos),
            self.steps_done(cross.0, first.0, runs.0, scored(ids, self.eos, max)),
            self.steps_done(cross.1, first.1, runs.1, tokens),
            ids.len() < max || tokens.len() < max,
            !tokens.contains(self.eos),
            self.step_begun(
                cross.1,
                first.1,
                runs.1,
                tokens,
                tokens.len() as int,
                inputs,
            ),
        ensures
            tokens.len() < scored(ids, self.eos, max).len(),
            same_tensors(runs.0[tokens.len() as int].inputs, inputs),
    {
        let s = scored(ids, self.eos, max);
        let step = tokens.len() as int;
        let count = if s.len() < step {
            s.len() as int
        } else {
            step
        };
        assert forall|i: int| 0 <= i < count - 1 implies #[trigger] s[i] != self.eos by {
            assert(i < ids.len() && s[i] == ids[i]);
            assert(ids.contains(ids[i]));
        }
        self.lemma_same_steps(cross, first, runs, s, tokens, count);
        if step >= s.len() {
            let i = ids.len() as int;
            assert(s.len() == i + 1 && s[i] == self.eos);
            assert(s[i] == tokens[i]);
            assert(tokens.contains(tokens[i]));
        }
        if step > 0 {
            assert(s[step - 1] == tokens[step - 1]);
            assert(tokens.contains(tokens[step - 1]));
        }
        assert(self.step_done(cross.0, first.0, runs.0, s, step));
        self.lemma_same_inputs(
            cross,
            first,
            runs,
            s,
            tokens,
            step,
            runs.0[step].inputs,
            inputs,
        );
    }

    /// Where decoding gave tokens, it cannot fail before it has come as far.
    #[verifier::spinoff_prover]
    proof fn lemma_cannot_fail(
        &self,
        cross: ((TValue, TValue), (TValue, TValue)),
        max: nat,
        ids: Seq<i64>,
        limit: nat,
        e: RecognizeError,
    )
        requires
            repeatable(self.decoder),
            readable(self.decoder),
            same_tensor(cross.0.0, cross.1.0),
            same_tensor(cross.0.1, cross.1.1),
            self.gives(cross.0, max, ids),
            ids.len() < max || limit <= max,
        ensures
            !self.fails(cross.1, limit, e),
    {
        if self.fails(cross.1, limit, e) {
            let s = scored(ids, self.eos, max);
            let (p, x) = choose|first: Seq<TValue>, runs: Seq<Run>| #[trigger]
                self.steps_done(cross.0, first, runs, s);
            let (q, y, tokens, inputs) = choose|
                first: Seq<TValue>,
                runs: Seq<Run>,
                tokens: Seq<i64>,
                inputs: Seq<TValue>,
            |
                {
                    &&& #[trigger] self.steps_done(cross.1, first, runs, tokens)
                    &&& tokens.len() < limit
                    &&& !tokens.contains(self.eos)
                    &&& #[trigger] self.step_begun(
                        cross.1,
                        first,
                        runs,
                        tokens,
                        tokens.len() as int,
                        inputs,
                    )
                    &&& self.step_fails(inputs, e)
                };
            let step = tokens.len() as int;
            self.lemma_step_was_done(cross, max, ids, (p, q), (x, y), tokens, inputs);
            assert(self.step_done(cross.0, p, x, s, step));
            self.lemma_step_cannot_fail(x[step], s[step], inputs, e);
        }
    }

    /// Where the decoder gives the same for the same inputs, a lower limit gives the same tokens,
    /// as many as it lets through.
    pub proof fn law_limit_cuts(
        &self,
        cross: (TValue, TValue),
        lower: nat,
        max: nat,
        a: Seq<i64>,
        b: Seq<i64>,
    )
        requires
            repeatable(self.decoder),
            lower <= max,
            self.gives(cross, lower, a),
            self.gives(cross, max, b),
        ensures
            a == b.take(if b.len() < lower { b.len() as int } else { lower as int }),
    {
        self.lemma_limit_cuts((cross, cross), lower, max, a, b);
    }

    /// Where the decoder gives the same for the same inputs, decoding gives the same tokens each
    /// time.
    pub proof fn law_same_tokens(
        &self,
        cross: (TValue, TValue),
        max: nat,
        a: Seq<i64>,
        b: Seq<i64>,
    )
        requires
            repeatable(self.decoder),
            self.gives(cross, max, a),
            self.gives(cross, max, b),
        ensures
            a == b,
    {
        self.law_limit_cuts(cross, max, max, a, b);
        assert(b.take(b.len() as int) =~= b);
    }

    /// Where the encoder gives the same for the same inputs, it comes to the same for a region
    /// each time.
    proof fn lemma_same_encoding<R: Fn(&[u8], usize, usize, usize, usize) -> Vec<u8>>(
        &self,
        resize: R,
        rgb: &[u8],
        w: usize,
        h: usize,
        x: Option<Seq<TValue>>,
        y: Option<Seq<TValue>>,
    )
        requires
            repeatable(self.encoder),
            resizes_alike(resize, rgb, w, h),
            self.encodes(resize, rgb, w, h, x),
            self.encodes(resize, rgb, w, h, y),
        ensures
            same_outcome(x, y),
    {
        let (s, a) = choose|small: Vec<u8>, inputs: Seq<TValue>| #[trigger]
            prepared(resize, rgb, w, h, small, inputs) && may_give(self.encoder, inputs, x);
        let (t, b) = choose|small: Vec<u8>, inputs: Seq<TValue>| #[trigger]
            prepared(resize, rgb, w, h, small, inputs) && may_give(self.encoder, inputs, y);
        assert(s@ == t@);
        assert(same_tensors(a, b));
    }

    /// Recognition that gave the tokens `ids` cannot come to anything else with another limit,
    /// where that is larger and the end token was reached, or where it is the same.
    proof fn lemma_recognized_again<R: Fn(&[u8], usize, usize, usize, usize) -> Vec<u8>>(
        &self,
        resize: R,
        rgb: &[u8],
        w: usize,
        h: usize,
        max: nat,
        ids: Seq<i64>,
        limit: nat,
        outcome: Result<Seq<char>, RecognizeError>,
    )
        requires
            repeatable(self.encoder),
            repeatable(self.decoder),
            readable(self.decoder),
            resizes_alike(resize, rgb, w, h),
            self.recognizes(resize, rgb, w, h, max, ids),
            max == limit || (ids.len() < max && max <= limit),
            self.comes_to(resize, rgb, w, h, limit, outcome),
        ensures
            outcome == Ok::<Seq<char>, RecognizeError>(detokenized(texts(self.vocab@), ids)),
    {
        let x = choose|outputs: Seq<TValue>|
            {
                &&& #[trigger] self.encodes(resize, rgb, w, h, Some(outputs))
                &&& outputs.len() >= 3
                &&& self.gives((outputs[1], outputs[2]), max, ids)
            };
        match outcome {
            Ok(text) => {
                let other = choose|other: Seq<i64>| #[trigger]
                    self.recognizes(resize, rgb, w, h, limit, other) && text == detokenized(
                        texts(self.vocab@),
                        other,
                    );
                let y = choose|outputs: Seq<TValue>|
                    {
                        &&& #[trigger] self.encodes(resize, rgb, w, h, Some(outputs))
                        &&& outputs.len() >= 3
                        &&& self.gives((outputs[1], outputs[2]), limit, other)
                    };
                self.lemma_same_encoding(resize, rgb, w, h, Some(x), Some(y));
                assert(same_tensor(x[1], y[1]) && same_tensor(x[2], y[2]));
                self.lemma_limit_cuts(
                    ((x[1], x[2]), (y[1], y[2])),
                    max,
                    limit,
                    ids,
                    other,
                );
                assert(other.take(other.len() as int) =~= other);
            },
            Err(e) => {
                if e is Model && self.encodes(resize, rgb, w, h, None) {
                    self.lemma_same_encoding(resize, rgb, w, h, Some(x), None);
                } else {
                    let y = choose|outputs: Seq<TValue>| #[trigger]
                        self.encodes(resize, rgb, w, h, Some(outputs)) && (if outputs.len() < 3 {
                            e is Outputs
                        } else {
                            self.fails((outputs[1], outputs[2]), limit, e)
                        });
                    self.lemma_same_encoding(resize, rgb, w, h, Some(x), Some(y));
                    assert(same_tensor(x[1], y[1]) && same_tensor(x[2], y[2]));
                    self.lemma_cannot_fail(
                        ((x[1], x[2]), (y[1], y[2])),
                        max,
                        ids,
                        limit,
                        e,
                    );
                }
            },
        }
    }

    /// Once the end token was reached, a larger limit changes nothing: where the models and the
    /// scaling come to the same for the same inputs, and scores can be read, recognition gives
    /// the same text and does not fail.
    pub proof fn law_end_reached<R: Fn(&[u8], usize, usize, usize, usize) -> Vec<u8>>(
        &self,
        resize: R,
        rgb: &[u8],
        w: usize,
        h: usize,
        max: nat,
        ids: Seq<i64>,
        larger: nat,
        outcome: Result<Seq<char>, RecognizeError>,
    )
        requires
            repeatable(self.encoder),
            repeatable(self.decoder),
            readable(self.decoder),
            resizes_alike(resize, rgb, w, h),
            self.recognizes(resize, rgb, w, h, max, ids),
            ids.len() < max,
            max <= larger,
            self.comes_to(resize, rgb, w, h, larger, outcome),
        ensures
            outcome == Ok::<Seq<char>, RecognizeError>(detokenized(texts(self.vocab@), ids)),
    {
        self.lemma_recognized_again(resize, rgb, w, h, max, ids, larger, outcome);
    }

    /// Nothing is carried from one recognition to the next: where the models and the scaling come
    /// to the same for the same inputs, and scores can be read, a region that was recognized is
    /// recognized again, with the same text.
    pub proof fn law_recognized_again<R: Fn(&[u8], usize, usize, usize, usize) -> Vec<u8>>(
        &self,
        resize: R,
        rgb: &[u8],
        w: usize,
        h: usize,
        max: nat,
        text: Seq<char>,
        outcome: Result<Seq<char>, RecognizeError>,
    )
        requires
            repeatable(self.encoder),
            repeatable(self.decoder),
            readable(self.decoder),
            resizes_alike(resize, rgb, w, h),
            self.comes_to(resize, rgb, w, h, max, Ok(text)),
            self.comes_to(resize, rgb, w, h, max, outcome),
        ensures
            outcome == Ok::<Seq<char>, RecognizeError>(text),
    {
        let ids = choose|ids: Seq<i64>| #[trigger]
            self.recognizes(resize, rgb, w, h, max, ids) && text == detokenized(
                texts(self.vocab@),
                ids,
            );
        self.lemma_recognized_again(resize, rgb, w, h, max, ids, max, outcome);
    }
}

/// The size to which recognition scales a region: both sides are multiples of 64 within the
/// limits. A region within the limits is cut to such multiples. Of any other region one side is
/// brought to its limit, and the other follows in proportion. No side grows but up to 64, and a
/// region that is wider than it is high stays so.
pub proof fn law_target(w: usize, h: usize)
    ensures
        target(w, h).0 % 64 == 0,
        target(w, h).1 % 64 == 0,
        64 <= target(w, h).0 <= 960,
        64 <= target(w, h).1 <= 1408,
        target(w, h).0 <= w || target(w, h).0 == 64,
        target(w, h).1 <= h || target(w, h).1 == 64,
        w <= 960 && h <= 1408 ==> w < target(w, h).0 + 64 && h < target(w, h).1 + 64,
        w > 960 || h > 1408 ==> (1408 * w <= 960 * h ==> {
            &&& target(w, h).1 == 1408
            &&& target(w, h).0 == 64 || target(w, h).0 * h <= 1408 * w
            &&& 1408 * w < (target(w, h).0 + 64) * h
        }),
        w > 960 || h > 1408 ==> (1408 * w > 960 * h ==> {
            &&& target(w, h).0 == 960
            &&& target(w, h).1 == 64 || target(w, h).1 * w <= 960 * h
            &&& 960 * h < (target(w, h).1 + 64) * w
        }),
        w >= h ==> target(w, h).0 >= target(w, h).1,
{
    let (x, y) = (w as nat, h as nat);
    law_target_in_limits(x, y);
    law_never_enlarged(x, y);
    if w <= 960 && h <= 1408 {
        law_target_within(x, y);
    } else {
        law_target_beyond(x, y);
    }
    if w >= h {
        law_wide_stays_wide(x, y);
    }
}

/// What the decoder takes: sixteen tensors, which are the token before, its position, both values
/// of the encoder, and what the six layers have kept.
pub proof fn law_decoder_inputs(
    inputs: Seq<TValue>,
    token: i64,
    step: nat,
    cross_k: TValue,
    cross_v: TValue,
    past: Seq<TValue>,
)
    requires
        decoder_takes(inputs, token, step, cross_k, cross_v, past),
        past.len() == 12,
    ensures
        inputs.len() == 16,
        tensor_dims(inputs[0]) == seq![1usize, 1usize],
        tensor_integers(inputs[0]) == Some(seq![token]),
        tensor_dims(inputs[1]) == seq![1usize, 1usize],
        tensor_integers(inputs[1]) is Some,
        tensor_integers(inputs[1])->0.len() == 1,
        tensor_integers(inputs[1])->0[0] == 2 + step,
        inputs[2] == cross_k,
        inputs[3] == cross_v,
        forall|j: int| 0 <= j < 12 ==> #[trigger] past[j] == inputs[4 + j],
{
    assert(tensor_integers(inputs[0])->0 =~= seq![token]);
    assert forall|j: int| 0 <= j < 12 implies #[trigger] past[j] == inputs[4 + j] by {
        assert(inputs.skip(4)[j] == inputs[4 + j]);
    }
}

/// What the encoder takes: one tensor with a number for each color of each pixel, a plane for each
/// color, row by row.
pub proof fn law_encoder_inputs(inputs: Seq<TValue>, small: Seq<u8>, tw: usize, th: usize)
    requires
        encoder_takes(inputs, small, tw, th),
    ensures
        inputs.len() == 1,
        tensor_dims(inputs[0]) == seq![1usize, 3usize, th, tw],
        tensor_reals(inputs[0]) is Some,
        tensor_reals(inputs[0])->0.len() == 3 * th * tw,
        forall|c: nat, y: nat, x: nat|
            c < 3 && y < th && x < tw ==> tensor_reals(inputs[0])->0[#[trigger] place(
                c,
                y,
                x,
                tw,
                th,
            )] == pixel_bits(small[(y * tw + x) * 3 + c]),
        forall|c: nat, y: nat, x: nat| #[trigger]
            place(c, y, x, tw, th) == c * th * tw + y * tw + x,
{
    law_plane_count(small, tw as nat, th as nat, 0);
    assert(3 * (tw as nat) * (th as nat) == 3 * th * tw) by (nonlinear_arith);
    assert forall|c: nat, y: nat, x: nat| c < 3 && y < th && x < tw implies tensor_reals(
        inputs[0],
    )->0[#[trigger] place(c, y, x, tw, th)] == pixel_bits(small[(y * tw + x) * 3 + c]) by {
        law_plane_layout(small, tw as nat, th as nat, c, y, x);
    }
}

/// The place of a color of a pixel among the numbers that the encoder takes.
pub open spec fn place(c: nat, y: nat, x: nat, tw: usize, th: usize) -> int {
    c * th * tw + y * tw + x
}

/// The last row of a tensor, where it has an axis, holds single-precision numbers, and not fewer
/// than that axis says.
pub proof fn law_last_row(dims: Seq<usize>, bits: Seq<u32>)
    ensures
        dims.len() > 0 && dims.last() <= bits.len() ==> last_row(dims, Some(bits)) == Some(
            bits.subrange(bits.len() - dims.last(), bits.len() as int),
        ),
        dims.len() == 0 || dims.last() > bits.len() ==> last_row(dims, Some(bits)) is None,
        last_row(dims, None) is None,
{
    if dims.len() > 0 && dims.last() <= bits.len() {
        assert(bits.skip(bits.len() - dims.last()) =~= bits.subrange(
            bits.len() - dims.last(),
            bits.len() as int,
        ));
    }
}

/// The token that is chosen is the one that the last row of the scores has at its highest.
pub proof fn law_token_chosen(t: TValue, token: i64)
    requires
        chosen(t, token),
    ensures
        tensor_dims(t).len() > 0,
        tensor_reals(t) is Some,
        tensor_dims(t).last() <= tensor_reals(t)->0.len(),
        is_best(
            tensor_reals(t)->0.subrange(
                tensor_reals(t)->0.len() - tensor_dims(t).last(),
                tensor_reals(t)->0.len() as int,
            ),
            token as int,
        ),
{
    law_last_row(tensor_dims(t), tensor_reals(t)->0);
}

/// Why scores cannot be used: they have no axis, are too few, are no single-precision numbers, or
/// are kept where they may not be readable.
pub proof fn law_unusable(t: TValue, e: RecognizeError)
    requires
        unusable(t, e),
    ensures
        e is ScoresShape || e is ScoresCount || e is ScoresKind || e is Tensor,
        e is ScoresShape <==> tensor_dims(t).len() == 0,
        e is ScoresCount ==> tensor_reals(t) is Some && tensor_reals(t)->0.len() < tensor_dims(
            t,
        ).last(),
        e is ScoresKind ==> tensor_reals(t) is None,
        e is Tensor ==> !tensor_in_memory(t),
{
}

/// Why there is no last row: there is no axis, there are too few elements, or they are no
/// single-precision numbers.
pub proof fn law_no_last_row(dims: Seq<usize>, bits: Option<Seq<u32>>, e: RecognizeError)
    requires
        no_last_row(dims, bits, e),
    ensures
        e is ScoresShape || e is ScoresCount || e is ScoresKind,
        e is ScoresShape <==> dims.len() == 0,
        e is ScoresKind ==> bits is None,
        e is ScoresCount ==> bits is Some && bits->0.len() < dims.last(),
{
}

impl UniRec {
    /// How the decoder was run where decoding gives the tokens `ids`: once for each of them, and
    /// once more for the end token unless there are as many as there may be. Each run takes the
    /// token before, its position, the values of the encoder, and what the run before gave for
    /// the layers. Each token is the one that is scored highest.
    pub proof fn law_decoding(&self, cross: (TValue, TValue), max: nat, ids: Seq<i64>) -> (runs:
        Seq<Run>)
        requires
            self.gives(cross, max, ids),
        ensures
            ids.len() <= max,
            forall|i: int| 0 <= i < ids.len() ==> #[trigger] ids[i] != self.eos,
            ids.len() < max ==> runs.len() == ids.len() + 1,
            ids.len() == max ==> runs.len() == ids.len(),
            forall|k: int|
                0 <= k < runs.len() ==> #[trigger] may_give(
                    self.decoder,
                    runs[k].inputs,
                    Some(runs[k].outputs),
                ),
            forall|k: int|
                0 <= k < runs.len() ==> {
                    let inputs = (#[trigger] runs[k]).inputs;
                    &&& inputs.len() == 16
                    &&& tensor_dims(inputs[0]) == seq![1usize, 1usize]
                    &&& tensor_integers(inputs[0]) == Some(
                        seq![
                            if k == 0 {
                                self.bos
                            } else {
                                ids[k - 1]
                            },
                        ],
                    )
                    &&& tensor_dims(inputs[1]) == seq![1usize, 1usize]
                    &&& tensor_integers(inputs[1]) is Some
                    &&& tensor_integers(inputs[1])->0.len() == 1
                    &&& tensor_integers(inputs[1])->0[0] == 2 + k
                    &&& inputs[2] == cross.0
                    &&& inputs[3] == cross.1
                },
            forall|k: int, j: int|
                0 <= k < runs.len() && 4 <= j < 16 ==> {
                    let t = #[trigger] runs[k].inputs[j];
                    &&& k == 0 ==> tensor_dims(t) == seq![1usize, 6usize, 0usize, 128usize]
                    &&& k == 0 ==> tensor_reals(t) == Some(Seq::<u32>::empty())
                    &&& k > 0 ==> t == runs[k - 1].outputs[j - 3]
                },
            forall|k: int|
                0 <= k < runs.len() ==> {
                    let outputs = (#[trigger] runs[k]).outputs;
                    let dims = tensor_dims(outputs[0]);
                    &&& outputs.len() >= (if k < ids.len() {
                        13int
                    } else {
                        1int
                    })
                    &&& dims.len() > 0
                    &&& tensor_reals(outputs[0]) matches Some(bits)
                    &&& dims.last() <= bits.len()
                    &&& is_best(
                        bits.subrange(bits.len() - dims.last(), bits.len() as int),
                        if k < ids.len() {
                            ids[k] as int
                        } else {
                            self.eos as int
                        },
                    )
                },
    {
        let tokens = scored(ids, self.eos, max);
        let (first, runs) = choose|first: Seq<TValue>, runs: Seq<Run>| #[trigger]
            self.steps_done(cross, first, runs, tokens);
        assert forall|i: int| 0 <= i < ids.len() implies #[trigger] ids[i] != self.eos by {
            assert(ids.contains(ids[i]));
        }
        assert forall|k: int| 0 <= k < runs.len() implies #[trigger] self.run_fits(
            cross,
            tokens,
            runs,
            k,
        ) by {
            self.lemma_run_fits(cross, first, runs, tokens, k);
        }
        assert forall|k: int| 0 <= k < runs.len() implies #[trigger] may_give(
            self.decoder,
            runs[k].inputs,
            Some(runs[k].outputs),
        ) by {
            assert(self.run_fits(cross, tokens, runs, k));
        }
        assert forall|k: int| 0 <= k < runs.len() implies {
            let inputs = (#[trigger] runs[k]).inputs;
            &&& inputs.len() == 16
            &&& tensor_dims(inputs[0]) == seq![1usize, 1usize]
            &&& tensor_integers(inputs[0]) == Some(
                seq![
                    if k == 0 {
                        self.bos
                    } else {
                        ids[k - 1]
                    },
                ],
            )
            &&& tensor_dims(inputs[1]) == seq![1usize, 1usize]
            &&& tensor_integers(inputs[1]) is Some
            &&& tensor_integers(inputs[1])->0.len() == 1
            &&& tensor_integers(inputs[1])->0[0] == 2 + k
            &&& inputs[2] == cross.0
            &&& inputs[3] == cross.1
        } by {
            assert(self.run_fits(cross, tokens, runs, k));
        }
        assert forall|k: int, j: int| 0 <= k < runs.len() && 4 <= j < 16 implies {
            let t = #[trigger] runs[k].inputs[j];
            &&& k == 0 ==> tensor_dims(t) == seq![1usize, 6usize, 0usize, 128usize]
            &&& k == 0 ==> tensor_reals(t) == Some(Seq::<u32>::empty())
            &&& k > 0 ==> t == runs[k - 1].outputs[j - 3]
        } by {
            assert(self.run_fits(cross, tokens, runs, k));
        }
        assert forall|k: int| 0 <= k < runs.len() implies {
            let outputs = (#[trigger] runs[k]).outputs;
            let dims = tensor_dims(outputs[0]);
            &&& outputs.len() >= (if k < ids.len() {
                13int
            } else {
                1int
            })
            &&& dims.len() > 0
            &&& tensor_reals(outputs[0]) matches Some(bits)
            &&& dims.last() <= bits.len()
            &&& is_best(
                bits.subrange(bits.len() - dims.last(), bits.len() as int),
                if k < ids.len() {
                    ids[k] as int
                } else {
                    self.eos as int
                },
            )
        } by {
            assert(self.run_fits(cross, tokens, runs, k));
        }
        runs
    }

    /// Whether a run is as it should be among those for the given tokens.
    spec fn run_fits(
        &self,
        cross: (TValue, TValue),
        tokens: Seq<i64>,
        runs: Seq<Run>,
        k: int,
    ) -> bool {
        let inputs = runs[k].inputs;
        let outputs = runs[k].outputs;
        let dims = tensor_dims(outputs[0]);
        &&& may_give(self.decoder, inputs, Some(outputs))
        &&& self.inputs_fit(cross, tokens, runs, k, inputs)
        &&& outputs.len() >= 1
        &&& tokens[k] != self.eos ==> outputs.len() >= 13
        &&& dims.len() > 0
        &&& tensor_reals(outputs[0]) matches Some(bits)
        &&& dims.last() <= bits.len()
        &&& is_best(bits.subrange(bits.len() - dims.last(), bits.len() as int), tokens[k] as int)
    }

    /// Whether inputs are as they should be for the step `k` after the given runs.
    spec fn inputs_fit(
        &self,
        cross: (TValue, TValue),
        tokens: Seq<i64>,
        runs: Seq<Run>,
        k: int,
        inputs: Seq<TValue>,
    ) -> bool {
        &&& inputs.len() == 16
        &&& tensor_dims(inputs[0]) == seq![1usize, 1usize]
        &&& tensor_integers(inputs[0]) == Some(
            seq![
                if k == 0 {
                    self.bos
                } else {
                    tokens[k - 1]
                },
            ],
        )
        &&& tensor_dims(inputs[1]) == seq![1usize, 1usize]
        &&& tensor_integers(inputs[1]) is Some
        &&& tensor_integers(inputs[1])->0.len() == 1
        &&& tensor_integers(inputs[1])->0[0] == 2 + k
        &&& inputs[2] == cross.0
        &&& inputs[3] == cross.1
        &&& forall|j: int|
            4 <= j < 16 ==> {
                let t = #[trigger] inputs[j];
                &&& k == 0 ==> tensor_dims(t) == seq![1usize, 6usize, 0usize, 128usize]
                &&& k == 0 ==> tensor_reals(t) == Some(Seq::<u32>::empty())
                &&& k > 0 ==> t == runs[k - 1].outputs[j - 3]
            }
    }

    proof fn lemma_inputs_fit(
        &self,
        cross: (TValue, TValue),
        first: Seq<TValue>,
        runs: Seq<Run>,
        tokens: Seq<i64>,
        k: int,
        inputs: Seq<TValue>,
    )
        requires
            first.len() == kept(),
            forall|i: int| 0 <= i < kept() ==> holds_nothing(#[trigger] first[i]),
            0 <= k,
            k > 0 ==> runs[k - 1].outputs.len() >= 1 + kept(),
            self.step_begun(cross, first, runs, tokens, k, inputs),
        ensures
            self.inputs_fit(cross, tokens, runs, k, inputs),
    {
        let past = past_before(first, runs, k);
        law_decoder_inputs(
            inputs,
            token_before(self.bos, tokens, k),
            k as nat,
            cross.0,
            cross.1,
            past,
        );
        assert forall|j: int| 4 <= j < 16 implies {
            let t = #[trigger] inputs[j];
            &&& k == 0 ==> tensor_dims(t) == seq![1usize, 6usize, 0usize, 128usize]
            &&& k == 0 ==> tensor_reals(t) == Some(Seq::<u32>::empty())
            &&& k > 0 ==> t == runs[k - 1].outputs[j - 3]
        } by {
            assert(past[j - 4] == inputs[4 + (j - 4)]);
            if k == 0 {
                assert(holds_nothing(first[j - 4]));
            }
        }
    }

    proof fn lemma_run_fits(
        &self,
        cross: (TValue, TValue),
        first: Seq<TValue>,
        runs: Seq<Run>,
        tokens: Seq<i64>,
        k: int,
    )
        requires
            self.steps_done(cross, first, runs, tokens),
            0 <= k < runs.len(),
            forall|i: int| 0 <= i < tokens.len() - 1 ==> #[trigger] tokens[i] != self.eos,
        ensures
            self.run_fits(cross, tokens, runs, k),
    {
        assert(self.step_done(cross, first, runs, tokens, k));
        if k > 0 {
            assert(self.step_done(cross, first, runs, tokens, k - 1));
            assert(tokens[k - 1] != self.eos);
        }
        self.lemma_inputs_fit(cross, first, runs, tokens, k, runs[k].inputs);
        law_token_chosen(runs[k].outputs[0], tokens[k]);
    }

    /// How decoding fails: the decoder was run as it should be for some tokens, fewer than there
    /// may be and none of them the end token, and then it failed, or gave nothing, or scores that
    /// cannot be used, or too little to keep after a token that does not end decoding. The last
    /// run is the failed one, without outputs where it gave none.
    pub proof fn law_decoding_fails(
        &self,
        cross: (TValue, TValue),
        max: nat,
        e: RecognizeError,
    ) -> (r: (Seq<Run>, Seq<i64>, Run, i64))
        requires
            self.fails(cross, max, e),
        ensures
            r.0.len() == r.1.len() < max,
            forall|i: int| 0 <= i < r.1.len() ==> #[trigger] r.1[i] != self.eos,
            forall|k: int|
                0 <= k <= r.0.len() ==> {
                    let inputs = (#[trigger] r.0.push(r.2)[k]).inputs;
                    &&& inputs.len() == 16
                    &&& tensor_dims(inputs[0]) == seq![1usize, 1usize]
                    &&& tensor_integers(inputs[0]) == Some(
                        seq![
                            if k == 0 {
                                self.bos
                            } else {
                                r.1[k - 1]
                            },
                        ],
                    )
                    &&& tensor_dims(inputs[1]) == seq![1usize, 1usize]
                    &&& tensor_integers(inputs[1]) is Some
                    &&& tensor_integers(inputs[1])->0.len() == 1
                    &&& tensor_integers(inputs[1])->0[0] == 2 + k
                    &&& inputs[2] == cross.0
                    &&& inputs[3] == cross.1
                },
            forall|k: int, j: int|
                0 <= k <= r.0.len() && 4 <= j < 16 ==> {
                    let t = #[trigger] r.0.push(r.2)[k].inputs[j];
                    &&& k == 0 ==> tensor_dims(t) == seq![1usize, 6usize, 0usize, 128usize]
                    &&& k == 0 ==> tensor_reals(t) == Some(Seq::<u32>::empty())
                    &&& k > 0 ==> t == r.0[k - 1].outputs[j - 3]
                },
            forall|k: int|
                0 <= k < r.0.len() ==> {
                    let run = #[trigger] r.0[k];
                    let dims = tensor_dims(run.outputs[0]);
                    &&& may_give(self.decoder, run.inputs, Some(run.outputs))
                    &&& run.outputs.len() >= 13
                    &&& dims.len() > 0
                    &&& tensor_reals(run.outputs[0]) matches Some(bits)
                    &&& dims.last() <= bits.len()
                    &&& is_best(
                        bits.subrange(bits.len() - dims.last(), bits.len() as int),
                        r.1[k] as int,
                    )
                },
            e is Model ==> may_give(self.decoder, r.2.inputs, None),
            !(e is Model) ==> may_give(self.decoder, r.2.inputs, Some(r.2.outputs)),
            match e {
                RecognizeError::Model(_) => true,
                RecognizeError::Outputs => r.2.outputs.len() == 0 || {
                    let dims = tensor_dims(r.2.outputs[0]);
                    &&& r.2.outputs.len() < 13
                    &&& r.3 != self.eos
                    &&& dims.len() > 0
                    &&& tensor_reals(r.2.outputs[0]) matches Some(bits)
                    &&& dims.last() <= bits.len()
                    &&& is_best(
                        bits.subrange(bits.len() - dims.last(), bits.len() as int),
                        r.3 as int,
                    )
                },
                RecognizeError::Tensor(_) => r.2.outputs.len() > 0 && !tensor_in_memory(
                    r.2.outputs[0],
                ),
                RecognizeError::ScoresShape => r.2.outputs.len() > 0 && tensor_dims(
                    r.2.outputs[0],
                ).len() == 0,
                RecognizeError::ScoresCount => r.2.outputs.len() > 0 && tensor_dims(
                    r.2.outputs[0],
                ).len() > 0 && tensor_reals(r.2.outputs[0]) is Some && tensor_reals(
                    r.2.outputs[0],
                )->0.len() < tensor_dims(r.2.outputs[0]).last(),
                RecognizeError::ScoresKind => r.2.outputs.len() > 0 && tensor_dims(
                    r.2.outputs[0],
                ).len() > 0 && tensor_reals(r.2.outputs[0]) is None,
            },
    {
        let (first, runs, tokens, inputs) = choose|
            first: Seq<TValue>,
            runs: Seq<Run>,
            tokens: Seq<i64>,
            inputs: Seq<TValue>,
        |
            {
                &&& #[trigger] self.steps_done(cross, first, runs, tokens)
                &&& tokens.len() < max
                &&& !tokens.contains(self.eos)
                &&& #[trigger] self.step_begun(
                    cross,
                    first,
                    runs,
                    tokens,
                    tokens.len() as int,
                    inputs,
                )
                &&& self.step_fails(inputs, e)
            };
        let n = tokens.len() as int;
        let outputs = if e is Model {
            Seq::empty()
        } else {
            choose|outputs: Seq<TValue>| #[trigger]
                may_give(self.decoder, inputs, Some(outputs)) && self.outputs_fail(outputs, e)
        };
        let failed = Run { inputs, outputs };
        let all = runs.push(failed);
        assert forall|i: int| 0 <= i < tokens.len() implies #[trigger] tokens[i] != self.eos by {
            assert(tokens.contains(tokens[i]));
        }
        assert forall|k: int| 0 <= k < n implies #[trigger] self.run_fits(
            cross,
            tokens,
            runs,
            k,
        ) by {
            self.lemma_run_fits(cross, first, runs, tokens, k);
        }
        if n > 0 {
            assert(self.run_fits(cross, tokens, runs, n - 1));
        }
        self.lemma_inputs_fit(cross, first, runs, tokens, n, inputs);
        assert forall|k: int| 0 <= k <= n implies #[trigger] self.inputs_fit(
            cross,
            tokens,
            runs,
            k,
            all[k].inputs,
        ) by {
            if k < n {
                assert(self.run_fits(cross, tokens, runs, k));
            }
        }
        assert forall|k: int| 0 <= k <= runs.len() implies {
            let inputs = (#[trigger] all[k]).inputs;
            &&& inputs.len() == 16
            &&& tensor_dims(inputs[0]) == seq![1usize, 1usize]
            &&& tensor_integers(inputs[0]) == Some(
                seq![
                    if k == 0 {
                        self.bos
                    } else {
                        tokens[k - 1]
                    },
                ],
            )
            &&& tensor_dims(inputs[1]) == seq![1usize, 1usize]
            &&& tensor_integers(inputs[1]) is Some
            &&& tensor_integers(inputs[1])->0.len() == 1
            &&& tensor_integers(inputs[1])->0[0] == 2 + k
            &&& inputs[2] == cross.0
            &&& inputs[3] == cross.1
        } by {
            assert(self.inputs_fit(cross, tokens, runs, k, all[k].inputs));
        }
        assert forall|k: int, j: int| 0 <= k <= runs.len() && 4 <= j < 16 implies {
            let t = #[trigger] all[k].inputs[j];
            &&& k == 0 ==> tensor_dims(t) == seq![1usize, 6usize, 0usize, 128usize]
            &&& k == 0 ==> tensor_reals(t) == Some(Seq::<u32>::empty())
            &&& k > 0 ==> t == runs[k - 1].outputs[j - 3]
        } by {
            assert(self.inputs_fit(cross, tokens, runs, k, all[k].inputs));
        }
        assert forall|k: int| 0 <= k < runs.len() implies {
            let run = #[trigger] runs[k];
            let dims = tensor_dims(run.outputs[0]);
            &&& may_give(self.decoder, run.inputs, Some(run.outputs))
            &&& run.outputs.len() >= 13
            &&& dims.len() > 0
            &&& tensor_reals(run.outputs[0]) matches Some(bits)
            &&& dims.last() <= bits.len()
            &&& is_best(
                bits.subrange(bits.len() - dims.last(), bits.len() as int),
                tokens[k] as int,
            )
        } by {
            assert(self.run_fits(cross, tokens, runs, k));
        }
        let token = choose|token: i64| #[trigger] chosen(outputs[0], token) && token != self.eos;
        if e is Outputs && outputs.len() > 0 {
            law_token_chosen(outputs[0], token);
        } else if !(e is Outputs) && !(e is Model) {
            law_unusable(outputs[0], e);
        }
        (runs, tokens, failed, token)
    }

    /// What recognition hands to the encoder where it finds the tokens `ids`, and what the encoder
    /// gives: the region is scaled to its target, the encoder takes what it is scaled to, and the
    /// second and third of what it gives are decoded.
    pub proof fn law_recognition<R: Fn(&[u8], usize, usize, usize, usize) -> Vec<u8>>(
        &self,
        resize: R,
        rgb: &[u8],
        w: usize,
        h: usize,
        max: nat,
        ids: Seq<i64>,
    ) -> (r: (Vec<u8>, Seq<TValue>, Seq<TValue>))
        requires
            self.recognizes(resize, rgb, w, h, max, ids),
        ensures
            call_ensures(resize, (rgb, w, h, target(w, h).0, target(w, h).1), r.0),
            encoder_takes(r.1, r.0@, target(w, h).0, target(w, h).1),
            may_give(self.encoder, r.1, Some(r.2)),
            r.2.len() >= 3,
            self.gives((r.2[1], r.2[2]), max, ids),
    {
        let outputs = choose|outputs: Seq<TValue>|
            {
                &&& #[trigger] self.encodes(resize, rgb, w, h, Some(outputs))
                &&& outputs.len() >= 3
                &&& self.gives((outputs[1], outputs[2]), max, ids)
            };
        let (small, inputs) = choose|small: Vec<u8>, inputs: Seq<TValue>| #[trigger]
            prepared(resize, rgb, w, h, small, inputs) && may_give(
                self.encoder,
                inputs,
                Some(outputs),
            );
        (small, inputs, outputs)
    }

    /// How recognition fails: after the region was scaled to its target the encoder failed, or
    /// gave fewer than three tensors, or what it gave could not be decoded.
    pub proof fn law_recognition_fails<R: Fn(&[u8], usize, usize, usize, usize) -> Vec<u8>>(
        &self,
        resize: R,
        rgb: &[u8],
        w: usize,
        h: usize,
        max: nat,
        e: RecognizeError,
    ) -> (r: (Vec<u8>, Seq<TValue>, Option<Seq<TValue>>))
        requires
            self.recognition_fails(resize, rgb, w, h, max, e),
        ensures
            call_ensures(resize, (rgb, w, h, target(w, h).0, target(w, h).1), r.0),
            encoder_takes(r.1, r.0@, target(w, h).0, target(w, h).1),
            may_give(self.encoder, r.1, r.2),
            r.2 is None ==> e is Model,
            r.2 is Some && r.2->0.len() < 3 ==> e is Outputs,
            r.2 is Some && r.2->0.len() >= 3 ==> self.fails((r.2->0[1], r.2->0[2]), max, e),
    {
        let outcome: Option<Seq<TValue>> = if e is Model && self.encodes(
            resize,
            rgb,
            w,
            h,
            None,
        ) {
            None
        } else {
            Some(
                choose|outputs: Seq<TValue>| #[trigger]
                    self.encodes(resize, rgb, w, h, Some(outputs)) && (if outputs.len() < 3 {
                        e is Outputs
                    } else {
                        self.fails((outputs[1], outputs[2]), max, e)
                    }),
            )
        };
        let (small, inputs) = choose|small: Vec<u8>, inputs: Seq<TValue>| #[trigger]
            prepared(resize, rgb, w, h, small, inputs) && may_give(self.encoder, inputs, outcome);
        (small, inputs, outcome)
    }

    /// What recognition comes to: the text of the tokens that it finds, or a failure.
    pub proof fn law_recognized<R: Fn(&[u8], usize, usize, usize, usize) -> Vec<u8>>(
        &self,
        resize: R,
        rgb: &[u8],
        w: usize,
        h: usize,
        max: nat,
        outcome: Result<Seq<char>, RecognizeError>,
    ) -> (ids: Seq<i64>)
        requires
            self.comes_to(resize, rgb, w, h, max, outcome),
        ensures
            match outcome {
                Ok(text) => self.recognizes(resize, rgb, w, h, max, ids) && text == detokenized(
                    texts(self.vocab@),
                    ids,
                ),
                Err(e) => self.recognition_fails(resize, rgb, w, h, max, e),
            },
    {
        match outcome {
            Ok(text) => choose|ids: Seq<i64>| #[trigger]
                self.recognizes(resize, rgb, w, h, max, ids) && text == detokenized(
                    texts(self.vocab@),
                    ids,
                ),
            Err(_) => Seq::empty(),
        }
    }

    /// A model that can be run on everything can be used for every region and up to every limit,
    /// and so can a scaling that gives a value for each color of each pixel.
    pub proof fn law_nothing_else_asked<R: Fn(&[u8], usize, usize, usize, usize) -> Vec<u8>>(
        &self,
        resize: R,
        rgb: &[u8],
        w: usize,
        h: usize,
        max: nat,
        cross: (TValue, TValue),
    )
        ensures
            (forall|inputs: Seq<TValue>| #[trigger] runs_safely(self.decoder, inputs))
                ==> self.can_decode(cross, max),
            (forall|inputs: Seq<TValue>| #[trigger] runs_safely(self.decoder, inputs)) && (forall|
                inputs: Seq<TValue>,
            | #[trigger]
                runs_safely(self.encoder, inputs)) ==> self.can_recognize(resize, rgb, w, h, max),
            (forall|tw: usize, th: usize| #[trigger]
                call_requires(resize, (rgb, w, h, tw, th))) && (forall|
                tw: usize,
                th: usize,
                small: Vec<u8>,
            | #[trigger]
                call_ensures(resize, (rgb, w, h, tw, th), small) ==> 3 * (tw * th) <= small@.len())
                ==> can_resize(resize, rgb, w, h),
    {
        if forall|inputs: Seq<TValue>| #[trigger] runs_safely(self.decoder, inputs) {
            assert(self.can_decode(cross, max));
            assert(forall|c: (TValue, TValue)| self.can_decode(c, max));
        }
    }

    /// Why no token follows from what the decoder gave: it gave nothing, or its scores cannot be
    /// used, or it gave fewer than thirteen tensors while the highest score is not that of the end
    /// token.
    pub proof fn law_no_token_after(&self, outputs: Seq<TValue>, e: RecognizeError)
        requires
            self.outputs_fail(outputs, e),
        ensures
            !(e is Model),
            outputs.len() == 0 ==> e is Outputs,
            e is Outputs ==> outputs.len() < 13,
            e is Outputs && outputs.len() > 0 ==> !chosen(outputs[0], self.eos),
            !(e is Outputs) ==> unusable(outputs[0], e),
    {
        if e is Outputs && outputs.len() > 0 && chosen(outputs[0], self.eos) {
            let token = choose|token: i64| #[trigger]
                chosen(outputs[0], token) && token != self.eos;
            law_best_unique(last_scores(outputs[0])->0, token as int, self.eos as int);
        }
    }
}

} // verus!
