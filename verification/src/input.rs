//! From the bytes of a file to the symbols that are analysed.

use crate::error::AnalysisError;
use crate::types::{lemma_symbol_limit_16, lemma_symbol_limit_grows, symbol_limit, NumBytes};
use vstd::prelude::*;

verus! {

/// The number that bytes stand for, the first byte being the most significant.
pub open spec fn be_value(bytes: Seq<u8>) -> nat
    decreases bytes.len(),
{
    if bytes.len() == 0 {
        0
    } else {
        be_value(bytes.drop_last()) * 256 + bytes.last() as nat
    }
}

/// The `i`-th group of `width` bytes of `bytes`.
pub open spec fn byte_group(bytes: Seq<u8>, width: int, i: int) -> Seq<u8> {
    bytes.subrange(i * width, i * width + width)
}

/// Whether `symbols` are the groups of `width` bytes of `bytes`, in order, each
/// byte group read with its first byte as the most significant.
pub open spec fn is_packed<T: NumBytes>(bytes: Seq<u8>, width: int, symbols: Seq<T>) -> bool {
    &&& symbols.len() * width == bytes.len()
    &&& forall|i: int|
        0 <= i < symbols.len() ==> (#[trigger] symbols[i]).value() == be_value(
            byte_group(bytes, width, i),
        )
}

/// The number of a byte group fits in as many bytes.
pub proof fn lemma_be_value_fits(bytes: Seq<u8>)
    ensures
        be_value(bytes) < symbol_limit(bytes.len()),
    decreases bytes.len(),
{
    if bytes.len() > 0 {
        lemma_be_value_fits(bytes.drop_last());
    }
}

/// The bytes determine the symbols they are grouped into.
pub proof fn lemma_packed_unique<T: NumBytes>(bytes: Seq<u8>, width: int, a: Seq<T>, b: Seq<T>)
    requires
        width > 0,
        is_packed(bytes, width, a),
        is_packed(bytes, width, b),
    ensures
        a == b,
{
    assert(a.len() == b.len()) by (nonlinear_arith)
        requires
            a.len() * width == b.len() * width,
            width > 0,
    ;
    assert forall|i: int| 0 <= i < a.len() implies a[i] == b[i] by {
        T::lemma_value_injective(a[i], b[i]);
    }
}

/// Groups `vec` into symbols of `T::BYTES` bytes each, the first byte of a group
/// being the most significant. The length of `vec` must be a multiple of the
/// width.
pub fn convert_vec<T: NumBytes>(vec: &Vec<u8>) -> (result: Result<Vec<T>, AnalysisError>)
    ensures
        (match result {
            Ok(symbols) => vec@.len() % (T::BYTES as nat) == 0 && is_packed(
                vec@,
                T::BYTES as int,
                symbols@,
            ),
            Err(e) => vec@.len() % (T::BYTES as nat) != 0 && e == (AnalysisError::LengthNotMultiple {
                bytes: T::BYTES,
            }),
        }),
{
    proof {
        T::lemma_width();
    }
    let num_bytes: u8 = T::BYTES;
    let width: usize = num_bytes as usize;
    if vec.len() % width != 0 {
        return Err(AnalysisError::LengthNotMultiple { bytes: num_bytes });
    }
    let new_len: usize = vec.len() / width;
    let mut conv: Vec<T> = Vec::with_capacity(new_len);
    let mut base: usize = 0;
    assert(new_len * width == vec.len()) by (nonlinear_arith)
        requires
            new_len == vec.len() / width,
            vec.len() % width == 0,
            width > 0,
    ;
    while conv.len() < new_len
        invariant
            width == T::BYTES,
            1 <= width <= 16,
            new_len * width == vec.len(),
            conv.len() <= new_len,
            base == conv.len() * width,
            is_packed(vec@.subrange(0, base as int), width as int, conv@),
        decreases new_len - conv.len(),
    {
        let ghost i = conv.len() as int;
        assert(base + width <= vec.len()) by (nonlinear_arith)
            requires
                base == i * width,
                i < new_len,
                new_len * width == vec.len(),
                width > 0,
        ;
        let mut val: u128 = 0;
        let mut j: usize = 0;
        while j < width
            invariant
                1 <= width <= 16,
                j <= width,
                base + width <= vec.len(),
                val == be_value(vec@.subrange(base as int, base + j)),
                val < symbol_limit(j as nat),
            decreases width - j,
        {
            proof {
                let longer = vec@.subrange(base as int, base + j + 1);
                assert(longer.drop_last() == vec@.subrange(base as int, base + j));
                lemma_symbol_limit_grows((j + 1) as nat, 16);
                lemma_symbol_limit_16();
            }
            val = val * 256 + vec[base + j] as u128;
            j += 1;
        }
        proof {
            let before = conv@;
            let group = vec@.subrange(base as int, base + width);
            let shorter = vec@.subrange(0, base as int);
            let longer = vec@.subrange(0, base + width);
            assert forall|k: int| 0 <= k < before.len() implies #[trigger] byte_group(
                shorter,
                width as int,
                k,
            ) == byte_group(longer, width as int, k) by {
                assert(k * width + width <= base) by (nonlinear_arith)
                    requires
                        0 <= k < i,
                        base == i * width,
                        width > 0,
                ;
            }
            assert(byte_group(longer, width as int, i) == group);
            assert((i + 1) * width == base + width) by (nonlinear_arith)
                requires
                    base == i * width,
            ;
        }
        let symbol = T::from_u128(val);
        conv.push(symbol);
        base += width;
    }
    assert(vec@.subrange(0, base as int) == vec@);
    Ok(conv)
}

/// How many positions are kept of `len`: the position `skip_first` and every
/// `keep_every`-th behind it.
pub open spec fn kept_count(len: nat, keep_every: nat, skip_first: nat) -> nat {
    if skip_first >= len || keep_every == 0 {
        0
    } else {
        ((len - skip_first + keep_every - 1) / keep_every as int) as nat
    }
}

/// The symbols that are kept of `s`: the one at position `skip_first` and every
/// `keep_every`-th behind it.
pub open spec fn kept<T>(s: Seq<T>, keep_every: nat, skip_first: nat) -> Seq<T> {
    Seq::new(kept_count(s.len(), keep_every, skip_first), |k: int| s[skip_first + k * keep_every])
}

/// Keeps the symbol at position `skip_first` and every `keep_every`-th behind it.
/// A `keep_every` of zero is an error.
pub fn filter_input_vec<T: Copy>(vec: &Vec<T>, keep_every: usize, skip_first: usize) -> (result:
    Result<Vec<T>, AnalysisError>)
    ensures
        (match result {
            Ok(symbols) => keep_every > 0 && symbols@ == kept(
                vec@,
                keep_every as nat,
                skip_first as nat,
            ),
            Err(e) => keep_every == 0 && e == AnalysisError::KeepEveryZero,
        }),
{
    if keep_every == 0 {
        return Err(AnalysisError::KeepEveryZero);
    }
    let mut result: Vec<T> = Vec::new();
    let len = vec.len();
    if skip_first >= len {
        return Ok(result);
    }
    let ghost count = kept_count(len as nat, keep_every as nat, skip_first as nat);
    let mut i: usize = skip_first;
    proof {
        lemma_kept_more(len as int - skip_first, keep_every as int, 0);
    }
    loop
        invariant_except_break
            i == skip_first + result.len() * keep_every,
            result.len() < count,
        invariant
            len == vec.len(),
            keep_every > 0,
            skip_first <= i < len,
            count == kept_count(len as nat, keep_every as nat, skip_first as nat),
            forall|k: int|
                0 <= k < result.len() ==> result@[k] == vec@[skip_first + k * keep_every],
        ensures
            result.len() == count,
            forall|k: int|
                0 <= k < result.len() ==> result@[k] == vec@[skip_first + k * keep_every],
        decreases len - i,
    {
        result.push(vec[i]);
        let ghost n = result.len() as int;
        assert(skip_first + n * keep_every == i + keep_every) by (nonlinear_arith)
            requires
                i == skip_first + (n - 1) * keep_every,
        ;
        if keep_every >= len - i {
            assert(n == count) by {
                lemma_kept_count(len as int - skip_first, keep_every as int, n);
            }
            break ;
        }
        i += keep_every;
        assert(n < count) by {
            lemma_kept_more(len as int - skip_first, keep_every as int, n);
        }
    }
    Ok(result)
}

/// `n` steps of `step` cover `span`, and one fewer does not: `n` is `span`
/// divided by `step`, rounded up.
proof fn lemma_kept_count(span: int, step: int, n: int)
    requires
        span > 0,
        step > 0,
        (n - 1) * step < span <= n * step,
    ensures
        (span + step - 1) / step == n,
{
    assert((n - 1) * step == n * step - step) by (nonlinear_arith);
    vstd::arithmetic::div_mod::lemma_fundamental_div_mod_converse(
        span + step - 1,
        step,
        n,
        span + step - 1 - n * step,
    );
}

/// Where `n` steps of `step` do not cover `span`, `span` divided by `step`,
/// rounded up, is more than `n`.
proof fn lemma_kept_more(span: int, step: int, n: int)
    requires
        span > 0,
        step > 0,
        n >= 0,
        n * step < span,
    ensures
        (span + step - 1) / step > n,
{
    let q = (span + step - 1) / step;
    vstd::arithmetic::div_mod::lemma_fundamental_div_mod(span + step - 1, step);
    if q <= n {
        assert(step * q <= step * n) by (nonlinear_arith)
            requires
                q <= n,
                step > 0,
        ;
        assert(n * step == step * n) by (nonlinear_arith);
    }
}

} // verus!
