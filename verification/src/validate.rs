use vstd::prelude::*;

use crate::state::sum_of;

verus! {

/// Why a puzzle input was rejected before the search started.
#[derive(Clone, Copy, Debug, PartialEq, Eq, Structural)]
pub enum InputError {
    /// The segment lengths plus the implied starting cell do not sum to the
    /// cube's volume; carries the expected volume and the actual sum.
    SumMismatch { expected: u64, got: u64 },
    /// The first segment length that reaches the cube side or beyond.
    ElementTooLarge { element: u8 },
}

/// Checks a segment-length sequence against a cube side before any search:
/// the lengths plus the implied starting cell must sum to the cube's
/// volume, and every length must be smaller than the side. The sum is
/// checked first, and the first oversized element is the one reported.
pub fn validate_input(size: usize, input: &[u8]) -> (r: Result<(), InputError>)
    requires
        size <= 0x1F_FFFF,  // the cube's volume must fit in a u64
        input@.len() <= 0xFFFF_FFFF,  // and so must the reported sum
    ensures
        match r {
            Ok(()) => sum_of(input@) + 1 == size * size * size && forall|k: int|
                0 <= k < input@.len() ==> (#[trigger] input@[k]) < size,
            Err(e) => match e {
                InputError::SumMismatch { expected, got } => {
                    &&& expected == size * size * size
                    &&& got == sum_of(input@) + 1
                    &&& got != expected
                },
                InputError::ElementTooLarge { element } => {
                    &&& sum_of(input@) + 1 == size * size * size
                    &&& exists|k: int|
                        0 <= k < input@.len() && #[trigger] input@[k] == element && element >= size
                            && forall|j: int| 0 <= j < k ==> (#[trigger] input@[j]) < size
                },
            },
        },
{
    proof {
        assert((size as u64) * (size as u64) <= 0x1F_FFFFu64 * 0x1F_FFFF && (size as u64) * (
        size as u64) * (size as u64) <= 0x1F_FFFFu64 * 0x1F_FFFF * 0x1F_FFFF) by (nonlinear_arith)
            requires
                size <= 0x1F_FFFF,
        ;
    }
    let expected = (size as u64) * (size as u64) * (size as u64);

    // Segment lengths need to sum up to the volume minus one, since the
    // starting cell is implied.
    let mut sum: u64 = 0;
    let mut idx: usize = 0;
    while idx < input.len()
        invariant
            idx <= input@.len(),
            input@.len() <= 0xFFFF_FFFF,
            sum == sum_of(input@.subrange(0, idx as int)),
            sum <= 255 * idx,
        decreases input@.len() - idx,
    {
        proof {
            assert(input@.subrange(0, idx + 1).drop_last() =~= input@.subrange(0, idx as int));
            assert(input@.subrange(0, idx + 1).last() == input@[idx as int]);
        }
        sum = sum + input[idx] as u64;
        idx = idx + 1;
    }
    proof {
        assert(input@.subrange(0, input@.len() as int) =~= input@);
    }
    let input_sum = sum + 1;
    if input_sum != expected {
        return Err(InputError::SumMismatch { expected, got: input_sum });
    }

    // Each segment has to fit inside the cube, so for a cube of side n
    // every length e must satisfy e < n.
    let mut i: usize = 0;
    while i < input.len()
        invariant
            i <= input@.len(),
            sum_of(input@) + 1 == size * size * size,
            forall|j: int| 0 <= j < i ==> (#[trigger] input@[j]) < size,
        decreases input@.len() - i,
    {
        if input[i] as usize >= size {
            return Err(InputError::ElementTooLarge { element: input[i] });
        }
        i = i + 1;
    }
    Ok(())
}

} // verus!
