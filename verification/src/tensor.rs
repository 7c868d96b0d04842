//! Tensors: values with a shape.

use vstd::prelude::*;

verus! {

/// The number of elements of a shape.
pub open spec fn elements(shape: Seq<usize>) -> int
    decreases shape.len(),
{
    if shape.len() == 0 {
        1
    } else {
        elements(shape.drop_last()) * shape.last()
    }
}

/// No product of leading dimensions is too large to count.
pub open spec fn countable(shape: Seq<usize>) -> bool {
    forall|count: int|
        0 <= count <= shape.len() ==> elements(#[trigger] shape.take(count)) <= usize::MAX
}

/// Why there is no such tensor.
#[derive(Clone, Copy, Debug, PartialEq, Eq, Structural)]
pub enum TensorError {
    /// The shape does not match the length of the data.
    Length,
    /// The shape has too many elements to count.
    Overflow,
}

/// Products of leading dimensions are not negative.
pub proof fn lemma_elements_nonnegative(shape: Seq<usize>)
    ensures
        elements(shape) >= 0,
    decreases shape.len(),
{
    if shape.len() > 0 {
        lemma_elements_nonnegative(shape.drop_last());
        let before = elements(shape.drop_last());
        let last = shape.last() as int;
        assert(before * last >= 0) by (nonlinear_arith)
            requires
                before >= 0,
                last >= 0,
        ;
    }
}

/// The number of elements of a shape, unless a product of leading dimensions is too large.
pub fn shape_elements(shape: &[usize]) -> (result: Result<usize, TensorError>)
    ensures
        match result {
            Ok(count) => countable(shape@) && count == elements(shape@),
            Err(error) => !countable(shape@) && error == TensorError::Overflow,
        },
{
    let mut count: usize = 1;
    for axis in 0..shape.len()
        invariant
            count == elements(shape@.take(axis as int)),
            countable(shape@.take(axis as int)),
    {
        let ghost shorter = shape@.take(axis as int);
        let ghost longer = shape@.take(axis + 1);
        assert(longer.drop_last() =~= shorter);
        match count.checked_mul(shape[axis]) {
            Some(product) => {
                count = product;
                assert forall|length: int| 0 <= length <= longer.len() implies elements(
                    #[trigger] longer.take(length),
                ) <= usize::MAX by {
                    if length < longer.len() {
                        assert(longer.take(length) =~= shorter.take(length));
                    } else {
                        assert(longer.take(length) =~= longer);
                    }
                }
            },
            None => {
                assert(elements(shape@.take(axis + 1)) > usize::MAX);
                return Err(TensorError::Overflow);
            },
        }
    }
    assert(shape@.take(shape@.len() as int) =~= shape@);
    Ok(count)
}

/// Values with a shape.
#[derive(Debug)]
pub struct Tensor<T> {
    shape: Vec<usize>,
    data: Vec<T>,
}

/// The content of a tensor.
#[verifier::ext_equal]
pub struct Values<T> {
    pub shape: Seq<usize>,
    pub data: Seq<T>,
}

impl<T> View for Tensor<T> {
    type V = Values<T>;

    closed spec fn view(&self) -> Values<T> {
        Values { shape: self.shape@, data: self.data@ }
    }
}

impl<T> Tensor<T> {
    /// There are as many values as the shape says.
    pub open spec fn wf(&self) -> bool {
        countable(self@.shape) && self@.data.len() == elements(self@.shape)
    }

    /// A tensor of the given values.
    pub fn from_vec(shape: Vec<usize>, data: Vec<T>) -> (result: Result<Self, TensorError>)
        ensures
            match result {
                Ok(tensor) => tensor@ == (Values { shape: shape@, data: data@ }) && tensor.wf(),
                Err(error) => error == TensorError::Length && !(countable(shape@) && elements(
                    shape@,
                ) == data@.len()),
            },
    {
        match shape_elements(shape.as_slice()) {
            Ok(expected) => {
                if expected != data.len() {
                    return Err(TensorError::Length);
                }
                Ok(Tensor { shape, data })
            },
            Err(_) => Err(TensorError::Length),
        }
    }

    /// The shape.
    pub fn shape(&self) -> (result: &[usize])
        ensures
            result@ == self@.shape,
    {
        self.shape.as_slice()
    }

    /// The values.
    pub fn data(&self) -> (result: &[T])
        ensures
            result@ == self@.data,
    {
        self.data.as_slice()
    }

    /// The values, to change.
    pub fn data_mut(&mut self) -> (result: &mut [T])
        ensures
            result@ == old(self)@.data,
            final(self)@ == (Values { shape: old(self)@.shape, data: final(result)@ }),
    {
        self.data.as_mut_slice()
    }

    /// The shape and the values.
    pub fn into_parts(self) -> (result: (Vec<usize>, Vec<T>))
        ensures
            result.0@ == self@.shape,
            result.1@ == self@.data,
    {
        (self.shape, self.data)
    }
}

impl<T: Clone> Tensor<T> {
    /// A tensor of one value.
    pub fn filled(shape: Vec<usize>, value: T) -> (result: Result<Self, TensorError>)
        ensures
            match result {
                Ok(tensor) => tensor@.shape == shape@ && tensor.wf() && forall|index: int|
                    0 <= index < tensor@.data.len() ==> cloned(
                        value,
                        #[trigger] tensor@.data[index],
                    ),
                Err(error) => error == TensorError::Overflow && !countable(shape@),
            },
    {
        match shape_elements(shape.as_slice()) {
            Ok(length) => Ok(Tensor { shape, data: vec![value; length] }),
            Err(error) => Err(error),
        }
    }
}

/// The number of elements of a shape is the product of those of its parts.
pub proof fn law_elements_multiply(left: Seq<usize>, right: Seq<usize>)
    ensures
        elements(left + right) == elements(left) * elements(right),
        right.len() == 1 ==> elements(right) == right[0],
    decreases right.len(),
{
    if right.len() == 0 {
        assert(left + right =~= left);
    } else {
        let shorter = right.drop_last();
        law_elements_multiply(left, shorter);
        assert((left + right).drop_last() =~= left + shorter);
        assert((left + right).last() == right.last());
        assert(elements(left) * (elements(shorter) * right.last()) == elements(left) * elements(
            shorter,
        ) * right.last()) by (nonlinear_arith);
        if right.len() == 1 {
            assert(elements(shorter) == 1);
        }
    }
}

}
