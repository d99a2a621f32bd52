//! Reducing the sampling rate of a file: of every `stride` lines the first is
//! kept, where `stride` is the ratio of the final sampling interval to the
//! original one.

use vstd::prelude::*;
use vstd::arithmetic::div_mod::{lemma_fundamental_div_mod, lemma_fundamental_div_mod_converse};
use crate::error::CsvError;

verus! {

/// The number of lines that pass for one kept, or why the two intervals, in
/// milliseconds, allow no conversion: the final one has to be a multiple of
/// the original one, and greater.
pub open spec fn stride_of(original_sampling: u64, final_sampling: u64) -> Result<u64, CsvError> {
    if final_sampling % original_sampling != 0 {
        Err(CsvError::NotAMultiple)
    } else if final_sampling <= original_sampling {
        Err(CsvError::FinalGreaterOrEqual)
    } else {
        Ok(final_sampling / original_sampling)
    }
}

/// How many of the indices below `len` are multiples of `stride`.
pub open spec fn kept_count(len: int, stride: int) -> int {
    (len + stride - 1) / stride
}

/// The items of `s` whose index is a multiple of `stride`, in order.
pub open spec fn every_nth<A>(s: Seq<A>, stride: int) -> Seq<A> {
    Seq::new(kept_count(s.len() as int, stride) as nat, |j: int| s[j * stride])
}

/// The lines that a conversion keeps, or why there is none.
pub open spec fn decimated(
    original_sampling: u64,
    final_sampling: u64,
    lines: Seq<Seq<char>>,
) -> Result<Seq<Seq<char>>, CsvError> {
    match stride_of(original_sampling, final_sampling) {
        Ok(stride) => Ok(every_nth(lines, stride as int)),
        Err(e) => Err(e),
    }
}

/// What the outcome of a conversion holds.
pub open spec fn lines_outcome(r: Result<Vec<String>, CsvError>) -> Result<
    Seq<Seq<char>>,
    CsvError,
> {
    match r {
        Ok(lines) => Ok(lines.deep_view()),
        Err(e) => Err(e),
    }
}

/// With `len` items, `kept_count` counts the multiples of `stride` below
/// `len`: `j * stride` is below `len` exactly for the `j` below the count.
pub proof fn lemma_kept_count(len: int, stride: int, j: int)
    requires
        0 <= len,
        0 < stride,
        0 <= j,
    ensures
        0 <= kept_count(len, stride),
        j < kept_count(len, stride) <==> j * stride < len,
{
    let x = len + stride - 1;
    let q = x / stride;
    let r = x % stride;
    lemma_fundamental_div_mod(x, stride);
    assert(0 <= r < stride) by (nonlinear_arith)
        requires
            r == x % stride,
            0 < stride,
    ;
    assert(x == stride * q + r);
    if j < q {
        assert(j * stride < len) by (nonlinear_arith)
            requires
                j + 1 <= q,
                0 < stride,
                len + stride - 1 == stride * q + r,
                0 <= r < stride,
        ;
    } else {
        assert(j * stride >= len) by (nonlinear_arith)
            requires
                j >= q,
                0 < stride,
                len + stride - 1 == stride * q + r,
                0 <= r < stride,
        ;
    }
    assert(0 <= q) by (nonlinear_arith)
        requires
            0 <= len,
            0 < stride,
            len + stride - 1 == stride * q + r,
            0 <= r < stride,
    ;
}

/// A line is kept if and only if its index is a multiple of the stride, and
/// the kept lines stand in the order in which they came.
pub proof fn lemma_every_nth_keeps_multiples<A>(s: Seq<A>, stride: int, i: int)
    requires
        0 < stride,
        0 <= i < s.len(),
        i % stride == 0,
    ensures
        0 <= i / stride < every_nth(s, stride).len(),
        every_nth(s, stride)[i / stride] == s[i],
{
    lemma_fundamental_div_mod(i, stride);
    let j = i / stride;
    assert(j * stride == i) by (nonlinear_arith)
        requires
            i == stride * j + 0,
    ;
    assert(0 <= j) by (nonlinear_arith)
        requires
            j * stride == i,
            0 <= i,
            0 < stride,
    ;
    lemma_kept_count(s.len() as int, stride, j);
}

/// One more line adds itself to the kept ones where its index is a multiple
/// of the stride, and else changes nothing.
pub proof fn lemma_every_nth_step<A>(s: Seq<A>, stride: int, i: int)
    requires
        0 < stride,
        0 <= i < s.len(),
    ensures
        every_nth(s.take(i + 1), stride) == if i % stride == 0 {
            every_nth(s.take(i), stride).push(s[i])
        } else {
            every_nth(s.take(i), stride)
        },
{
    let before = every_nth(s.take(i), stride);
    let after = every_nth(s.take(i + 1), stride);
    let q = i / stride;
    let r = i % stride;
    lemma_fundamental_div_mod(i, stride);
    assert(0 <= r < stride) by (nonlinear_arith)
        requires
            r == i % stride,
            0 < stride,
    ;
    assert(q * stride == stride * q) by (nonlinear_arith);
    lemma_kept_count(i, stride, q);
    lemma_kept_count(i + 1, stride, q);
    lemma_kept_count(i, stride, q + 1);
    lemma_kept_count(i + 1, stride, q + 1);
    assert((q + 1) * stride == q * stride + stride) by (nonlinear_arith);
    assert(0 <= q) by (nonlinear_arith)
        requires
            i == stride * q + r,
            0 <= i,
            0 < stride,
            0 <= r < stride,
    ;
    if q > 0 {
        lemma_kept_count(i, stride, q - 1);
        lemma_kept_count(i + 1, stride, q - 1);
        assert((q - 1) * stride == q * stride - stride) by (nonlinear_arith);
    }
    assert forall|j: int| 0 <= j < before.len() implies before[j] == after[j] by {
        lemma_kept_count(i, stride, j);
        lemma_kept_count(i + 1, stride, j);
    }
    if r == 0 {
        assert(after =~= before.push(s[i]));
    } else {
        assert(after =~= before);
    }
}

/// A conversion that is allowed keeps at most every second line.
pub proof fn lemma_stride_at_least_two(original_sampling: u64, final_sampling: u64)
    requires
        original_sampling > 0,
        stride_of(original_sampling, final_sampling) is Ok,
    ensures
        stride_of(original_sampling, final_sampling)->Ok_0 >= 2,
{
    let d = original_sampling as int;
    let x = final_sampling as int;
    lemma_fundamental_div_mod(x, d);
    assert(x / d >= 2) by (nonlinear_arith)
        requires
            x == d * (x / d) + 0,
            x > d,
            d > 0,
    ;
}

/// Checks the two sampling intervals, in milliseconds, and gives the number
/// of lines that pass for one kept.
pub fn sampling_stride(original_sampling: u64, final_sampling: u64) -> (r: Result<u64, CsvError>)
    requires
        original_sampling > 0,
    ensures
        r == stride_of(original_sampling, final_sampling),
{
    if final_sampling % original_sampling != 0 {
        return Err(CsvError::NotAMultiple);
    }
    if final_sampling <= original_sampling {
        return Err(CsvError::FinalGreaterOrEqual);
    }
    Ok(final_sampling / original_sampling)
}

/// Keeps of `lines` those whose index, counted from zero, is a multiple of
/// the ratio of `final_sampling` to `original_sampling`, both in
/// milliseconds. There is no conversion unless the final interval is a
/// multiple of the original one, and greater.
pub fn sampling_conversion(
    original_sampling: u64,
    final_sampling: u64,
    lines: &Vec<String>,
) -> (r: Result<Vec<String>, CsvError>)
    requires
        original_sampling > 0,
    ensures
        lines_outcome(r) == decimated(original_sampling, final_sampling, lines.deep_view()),
{
    let stride = match sampling_stride(original_sampling, final_sampling) {
        Ok(stride) => stride,
        Err(e) => { return Err(e); },
    };
    let ghost all = lines.deep_view();
    let mut kept: Vec<String> = Vec::new();
    let mut i: usize = 0;
    proof {
        lemma_stride_at_least_two(original_sampling, final_sampling);
        lemma_kept_count(0, stride as int, 0);
        assert(kept.deep_view() =~= every_nth(all.take(0), stride as int));
    }
    while i < lines.len()
        invariant
            i <= lines.len(),
            stride > 0,
            all == lines.deep_view(),
            kept.deep_view() == every_nth(all.take(i as int), stride as int),
        decreases lines.len() - i,
    {
        proof {
            lemma_every_nth_step(all, stride as int, i as int);
        }
        if (i as u64) % stride == 0 {
            let ghost before = kept.deep_view();
            kept.push(lines[i].clone());
            proof {
                assert(kept.deep_view() =~= before.push(all[i as int]));
            }
        }
        i += 1;
    }
    proof {
        assert(all.take(lines.len() as int) =~= all);
    }
    Ok(kept)
}

} // verus!
