use vstd::prelude::*;

verus! {

/// The height, in pixels, of every recognition input.
pub open spec fn recognition_height() -> usize {
    48
}

/// What is wrong with the shape of a recognition tensor.
#[derive(Debug)]
pub enum RecShapeError {
    /// The input tensor does not have four dimensions.
    InputRank { shape: Vec<usize> },
    /// The input tensor is not shaped `[*, 3, 48, *]`.
    InputLayout { shape: Vec<usize> },
    /// The output tensor does not have three dimensions.
    OutputRank { shape: Vec<usize> },
    /// The output holds another number of samples than the input.
    BatchMismatch { input: usize, output: usize },
}

/// Copies a shape into a vector.
fn shape_vec(shape: &[usize]) -> (v: Vec<usize>)
    ensures
        v@ == shape@,
{
    let mut v: Vec<usize> = Vec::new();
    let mut i: usize = 0;
    while i < shape.len()
        invariant
            0 <= i <= shape@.len(),
            v@ == shape@.take(i as int),
        decreases shape@.len() - i,
    {
        v.push(shape[i]);
        i += 1;
        assert(v@ == shape@.take(i as int));
    }
    assert(shape@.take(shape@.len() as int) == shape@);
    v
}

/// The batch size and width of a recognition input of the given shape: it
/// must have four dimensions, three channels and a height of 48.
pub fn recognition_input_dims(shape: &[usize]) -> (r: Result<(usize, usize), RecShapeError>)
    ensures
        shape@.len() != 4 ==> (r matches Err(RecShapeError::InputRank { shape: s }) && s@ == shape@),
        shape@.len() == 4 && (shape@[1] != 3 || shape@[2] != recognition_height()) ==> (r matches Err(
            RecShapeError::InputLayout { shape: s },
        ) && s@ == shape@),
        shape@.len() == 4 && shape@[1] == 3 && shape@[2] == recognition_height() ==> r == Ok::<
            (usize, usize),
            RecShapeError,
        >((shape@[0], shape@[3])),
{
    if shape.len() != 4 {
        return Err(RecShapeError::InputRank { shape: shape_vec(shape) });
    }
    if shape[1] != 3 || shape[2] != 48 {
        return Err(RecShapeError::InputLayout { shape: shape_vec(shape) });
    }
    Ok((shape[0], shape[3]))
}

/// The number of time steps of a recognition output of the given shape: it
/// must have three dimensions, the first one the input's batch size.
pub fn recognition_output_steps(batch_size: usize, shape: &[usize]) -> (r: Result<usize, RecShapeError>)
    ensures
        shape@.len() != 3 ==> (r matches Err(RecShapeError::OutputRank { shape: s }) && s@ == shape@),
        shape@.len() == 3 && shape@[0] != batch_size ==> (r matches Err(
            RecShapeError::BatchMismatch { input, output },
        ) && input == batch_size && output == shape@[0]),
        shape@.len() == 3 && shape@[0] == batch_size ==> r == Ok::<usize, RecShapeError>(shape@[1]),
{
    if shape.len() != 3 {
        return Err(RecShapeError::OutputRank { shape: shape_vec(shape) });
    }
    if shape[0] != batch_size {
        return Err(RecShapeError::BatchMismatch { input: batch_size, output: shape[0] });
    }
    Ok(shape[1])
}


/// The number of time steps a sample of the batch reads: its estimate from its
/// valid width (`None` when the batch has no width to scale by, and then every
/// step), raised to at least 1 and cut to at most `time_steps`.
pub open spec fn valid_steps(estimate: Option<i64>, time_steps: usize) -> int {
    let s: int = match estimate {
        Some(e) => e as int,
        None => time_steps as int,
    };
    let s = if s < 1 { 1 } else { s };
    if s > time_steps { time_steps as int } else { s }
}

/// The number of time steps a sample reads, from its estimate.
pub fn clamp_valid_steps(estimate: Option<i64>, time_steps: usize) -> (n: usize)
    ensures
        n == valid_steps(estimate, time_steps),
        n <= time_steps,
{
    let s: i128 = match estimate {
        Some(e) => e as i128,
        None => time_steps as i128,
    };
    let s: i128 = if s < 1 { 1 } else { s };
    if s > time_steps as i128 { time_steps } else { s as usize }
}

} // verus!
