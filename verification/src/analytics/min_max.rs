//! The smallest and the largest symbol.

use crate::error::AnalysisError;
use crate::text::{decimal, push_decimal};
use crate::types::NumBytes;
use vstd::prelude::*;
use vstd::string::*;

verus! {

/// Whether `min` and `max` are symbols of `s` with no symbol of `s` below `min`
/// or above `max`.
pub open spec fn is_min_max<T: NumBytes>(s: Seq<T>, min: T, max: T) -> bool {
    &&& s.contains(min)
    &&& s.contains(max)
    &&& forall|i: int| 0 <= i < s.len() ==> min.value() <= (#[trigger] s[i]).value() <= max.value()
}

/// Smallest and largest are determined by the sequence.
pub proof fn lemma_min_max_unique<T: NumBytes>(s: Seq<T>, min1: T, max1: T, min2: T, max2: T)
    requires
        is_min_max(s, min1, max1),
        is_min_max(s, min2, max2),
    ensures
        min1 == min2,
        max1 == max2,
{
    T::lemma_value_injective(min1, min2);
    T::lemma_value_injective(max1, max2);
}

/// The smallest and the largest symbol of `vec`, which must not be empty.
pub fn min_max<T: NumBytes>(vec: &Vec<T>) -> (result: Result<(T, T), AnalysisError>)
    ensures
        (match result {
            Ok((min, max)) => vec@.len() > 0 && is_min_max(vec@, min, max),
            Err(e) => vec@.len() == 0 && e == AnalysisError::EmptyInput,
        }),
{
    if vec.len() == 0 {
        return Err(AnalysisError::EmptyInput);
    }
    let mut min: T = vec[0];
    let mut max: T = vec[0];
    let mut i: usize = 0;
    while i < vec.len()
        invariant
            i <= vec.len(),
            vec@.contains(min),
            vec@.contains(max),
            forall|k: int| 0 <= k < i ==> min.value() <= (#[trigger] vec@[k]).value() <= max.value(),
            min.value() <= max.value(),
        decreases vec.len() - i,
    {
        let x = vec[i];
        if x.to_u128() < min.to_u128() {
            min = x;
        }
        if x.to_u128() > max.to_u128() {
            max = x;
        }
        i += 1;
    }
    Ok((min, max))
}

/// The line that reports a smallest and a largest number.
pub open spec fn min_max_line(min: nat, max: nat) -> Seq<char> {
    "Minimum: "@ + decimal(min) + ", Maximum: "@ + decimal(max) + "\n"@
}

/// Appends the line that reports the smallest and the largest symbol to `out`.
pub fn print_min_max_result<T: NumBytes>(result: &(T, T), out: &mut String)
    ensures
        final(out)@ == old(out)@ + min_max_line(result.0.value(), result.1.value()),
{
    out.append("Minimum: ");
    push_decimal(out, result.0.to_u128());
    out.append(", Maximum: ");
    push_decimal(out, result.1.to_u128());
    out.append("\n");
}

} // verus!
