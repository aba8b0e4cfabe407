//! Tensors of `tract`.
//!
//! Single-precision numbers are held as their bits.

use vstd::prelude::*;

verus! {

/// A tensor of `tract`, as models take and return it.
#[verifier::external_type_specification]
#[verifier::external_body]
pub struct ExTValue(tract_onnx::prelude::TValue);

/// An error of `tract`.
#[verifier::external_type_specification]
#[verifier::external_body]
pub struct ExTractError(tract_onnx::prelude::TractError);

/// The lengths of a tensor along its axes.
pub uninterp spec fn tensor_dims(t: tract_onnx::prelude::TValue) -> Seq<usize>;

/// The elements of a tensor of 64-bit integers, row by row, and none of a tensor of another kind.
pub uninterp spec fn tensor_integers(t: tract_onnx::prelude::TValue) -> Option<Seq<i64>>;

/// The bits of the elements of a tensor of single-precision numbers, row by row, and none of a
/// tensor of another kind.
pub uninterp spec fn tensor_reals(t: tract_onnx::prelude::TValue) -> Option<Seq<u32>>;

/// Whether the elements of a tensor are kept in plain memory.
pub uninterp spec fn tensor_in_memory(t: tract_onnx::prelude::TValue) -> bool;

/// The count of elements of a tensor with the given lengths.
pub open spec fn volume(dims: Seq<usize>) -> nat
    decreases dims.len(),
{
    if dims.len() == 0 {
        1
    } else {
        volume(dims.drop_last()) * dims.last() as nat
    }
}

/// Whether no product of consecutive lengths takes more bytes than an allocation may.
pub open spec fn allocatable(dims: Seq<usize>) -> bool {
    forall|i: int, j: int|
        0 <= i <= j <= dims.len() ==> 8 * volume(#[trigger] dims.subrange(i, j)) <= isize::MAX
}

/// `Tensor::from_shape` of `tract`, on 64-bit integers: a tensor with the given lengths and
/// elements. It fails only where the count of elements is not that of the lengths or does not
/// fit, which the precondition rules out.
#[verifier::external_body]
pub(crate) fn integer_tensor(dims: &[usize], elements: &[i64]) -> (r: Result<
    tract_onnx::prelude::TValue,
    tract_onnx::prelude::TractError,
>)
    requires
        allocatable(dims@),
        elements@.len() == volume(dims@),
    ensures
        r is Ok,
        r matches Ok(t) ==> tensor_dims(t) == dims@ && tensor_integers(t) == Some(elements@)
            && tensor_reals(t) is None && tensor_in_memory(t),
{
    tract_onnx::prelude::Tensor::from_shape(dims, elements).map(|t| t.into())
}

/// `Tensor::zero_dt` of `tract`, on single-precision numbers, with its memory then filled through
/// `Tensor::as_bytes_mut`: a tensor with the given lengths and elements. It fails only where the
/// lengths do not fit, which the precondition rules out.
#[verifier::external_body]
pub(crate) fn real_tensor(dims: &[usize], bits: &[u32]) -> (r: Result<
    tract_onnx::prelude::TValue,
    tract_onnx::prelude::TractError,
>)
    requires
        allocatable(dims@),
        bits@.len() == volume(dims@),
    ensures
        r is Ok,
        r matches Ok(t) ==> tensor_dims(t) == dims@ && tensor_reals(t) == Some(bits@)
            && tensor_integers(t) is None && tensor_in_memory(t),
{
    let mut t = tract_onnx::prelude::Tensor::zero_dt(tract_onnx::prelude::DatumType::F32, dims)?;
    let bytes: Vec<u8> = bits.iter().flat_map(|b| b.to_ne_bytes()).collect();
    t.as_bytes_mut().copy_from_slice(&bytes);
    Ok(t.into())
}

/// `Tensor::shape` of `tract`: the lengths of a tensor along its axes.
#[verifier::external_body]
pub(crate) fn dims_of(t: &tract_onnx::prelude::TValue) -> (r: Vec<usize>)
    ensures
        r@ == tensor_dims(*t),
{
    t.shape().to_vec()
}

/// `Tensor::try_as_plain_ram` of `tract`, and the bytes that it gives: the bits of the elements
/// of a tensor of single-precision numbers, and none where the elements are of another kind. It
/// succeeds where the elements are kept in plain memory. Where they are kept elsewhere it may
/// bring them to memory or fail, which depends on the machine and is left unsaid. As any vector,
/// what it gives takes no more bytes than `isize::MAX`.
#[verifier::external_body]
pub(crate) fn reals_of(t: &tract_onnx::prelude::TValue) -> (r: Result<
    Option<Vec<u32>>,
    tract_onnx::prelude::TractError,
>)
    ensures
        r matches Ok(Some(bits)) ==> tensor_reals(*t) == Some(bits@),
        r matches Ok(Some(bits)) ==> 4 * bits@.len() <= isize::MAX,
        r matches Ok(None) ==> tensor_reals(*t) is None,
        tensor_in_memory(*t) ==> r is Ok,
{
    let bytes = t.try_as_plain_ram()?.as_bytes();
    let bits = bytes.chunks_exact(4).map(|b| u32::from_ne_bytes([b[0], b[1], b[2], b[3]]));
    match t.datum_type() {
        tract_onnx::prelude::DatumType::F32 => Ok(Some(bits.collect())),
        _ => Ok(None),
    }
}

/// `TValue::clone` of `tract`: the same tensor once more.
pub assume_specification[ <tract_onnx::prelude::TValue as std::clone::Clone>::clone ](
    t: &tract_onnx::prelude::TValue,
) -> (r: tract_onnx::prelude::TValue)
    ensures
        r == *t,
;

} // verus!
