//! Models that `tract` runs.

use tract_onnx::prelude::{TValue, TractError};
use vstd::prelude::*;

verus! {

/// A model of `tract` that is ready to run.
#[verifier::external_body]
pub struct Model {
    pub plan: std::sync::Arc<tract_onnx::prelude::TypedRunnableModel>,
}

/// Whether a run of a model on `inputs` may give `outputs`, or may fail where there are none.
pub uninterp spec fn may_give(
    model: Model,
    inputs: Seq<TValue>,
    outputs: Option<Seq<TValue>>,
) -> bool;

/// Whether every run of a model on `inputs` comes to an end and does not panic. An operation of a
/// model may panic on inputs that it was not made for, such as a lookup outside of its table.
pub uninterp spec fn runs_safely(model: Model, inputs: Seq<TValue>) -> bool;

/// `SimplePlan::run` of `tract`: one of the outcomes that running a model on the given inputs may
/// have. Inputs of the wrong count, kind or shape are among what it fails on; inputs on which an
/// operation of the model panics are ruled out. What a model computes may differ in the last bits
/// from one processor to another, so it is not said that the outcome is the same each time.
#[verifier::external_body]
pub(crate) fn run(model: &Model, inputs: Vec<TValue>) -> (r: Result<Vec<TValue>, TractError>)
    requires
        runs_safely(*model, inputs@),
    ensures
        match r {
            Ok(outputs) => runs_safely(*model, inputs@) && may_give(
                *model,
                inputs@,
                Some(outputs@),
            ),
            Err(_) => runs_safely(*model, inputs@) && may_give(*model, inputs@, None),
        },
{
    model.plan.run(inputs.into()).map(|outputs| outputs.into_vec())
}

} // verus!
