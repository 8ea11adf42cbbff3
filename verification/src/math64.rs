//! Vector and matrix operations on 128-bit fixed-point numbers.
use vstd::prelude::*;
use crate::fixed::{I32F32, I64F64, div64, div64_fits, mul64_fits, trunc_div, scale32, scale64};

verus! {

/// Exact sum of the bit patterns of a sequence of `I64F64`.
pub open spec fn sum64_bits(s: Seq<I64F64>) -> int
    decreases s.len(),
{
    if s.len() == 0 { 0 } else { sum64_bits(s.drop_last()) + s.last().bits }
}

/// Whether every running sum of the sequence stays within `i128`.
pub open spec fn sum64_fits(s: Seq<I64F64>) -> bool {
    forall|k: int| 0 <= k <= s.len() ==> i128::MIN <= #[trigger] sum64_bits(s.take(k)) <= i128::MAX
}

/// Sum of a vector (`iter().sum()`).
pub fn sum_fixed64(x: &[I64F64]) -> (s: I64F64)
    requires
        sum64_fits(x@),
    ensures
        s.bits == sum64_bits(x@),
{
    let mut acc: i128 = 0;
    let mut i: usize = 0;
    while i < x.len()
        invariant
            i <= x.len(),
            sum64_fits(x@),
            acc == sum64_bits(x@.take(i as int)),
        decreases x.len() - i,
    {
        proof {
            assert(x@.take(i + 1).drop_last() =~= x@.take(i as int));
            assert(i128::MIN <= sum64_bits(x@.take(i + 1)) <= i128::MAX);
        }
        acc = acc + x[i].bits;
        i = i + 1;
    }
    proof {
        assert(x@.take(x@.len() as int) =~= x@);
    }
    I64F64 { bits: acc }
}

/// A sequence normalized to sum to one; left unchanged when its sum is zero.
pub open spec fn normalized64(s: Seq<I64F64>) -> Seq<I64F64> {
    if sum64_bits(s) == 0 {
        s
    } else {
        Seq::new(s.len(), |i: int| I64F64 { bits: div64(s[i].bits as int, sum64_bits(s)) as i128 })
    }
}

/// Normalizes a vector so that it sums to one, in place; a vector that sums
/// to zero is left unchanged.
pub fn inplace_normalize_64(x: &mut Vec<I64F64>)
    requires
        sum64_fits(old(x)@),
    ensures
        final(x)@ == normalized64(old(x)@),
{
    let x_sum = sum_fixed64(x.as_slice());
    if x_sum.bits == 0 {
        return;
    }
    let ghost orig = x@;
    let mut i: usize = 0;
    while i < x.len()
        invariant
            x_sum.bits == sum64_bits(orig),
            x_sum.bits != 0,
            x@.len() == orig.len(),
            i <= x@.len(),
            forall|k: int| 0 <= k < i ==> x@[k].bits == div64(orig[k].bits as int, x_sum.bits as int),
            forall|k: int| i <= k < x@.len() ==> x@[k] == orig[k],
        decreases x@.len() - i,
    {
        let v = x[i].saturating_div(x_sum);
        x.set(i, v);
        i = i + 1;
    }
    assert(x@ =~= normalized64(orig));
}

/// A row divided by its sum with checked division (zero where the quotient
/// overflows); rows whose sum is not positive are left unchanged.
pub open spec fn row_normalized64(row: Seq<I64F64>) -> Seq<I64F64> {
    let t = sum64_bits(row);
    if t > 0 {
        Seq::new(row.len(), |k: int| I64F64 {
            bits: if div64_fits(row[k].bits as int, t) { trunc_div(row[k].bits * scale64(), t) as i128 } else { 0 },
        })
    } else {
        row
    }
}

/// Normalizes each row of a dense matrix in place so that it sums to one;
/// rows whose sum is not positive are left unchanged.
pub fn inplace_row_normalize_64(x: &mut Vec<Vec<I64F64>>)
    requires
        forall|i: int| 0 <= i < old(x)@.len() ==> sum64_fits(#[trigger] old(x)@[i]@),
    ensures
        final(x)@.len() == old(x)@.len(),
        forall|i: int| 0 <= i < final(x)@.len() ==> #[trigger] final(x)@[i]@ == row_normalized64(old(x)@[i]@),
{
    let n = x.len();
    let mut result: Vec<Vec<I64F64>> = Vec::new();
    let mut i: usize = 0;
    while i < n
        invariant
            n == x@.len(),
            i <= n,
            result@.len() == i,
            forall|t: int| 0 <= t < n ==> sum64_fits(#[trigger] x@[t]@),
            forall|t: int| 0 <= t < i ==> #[trigger] result@[t]@ == row_normalized64(x@[t]@),
        decreases n - i,
    {
        let row = &x[i];
        assert(sum64_fits(row@));
        let row_sum = sum_fixed64(row.as_slice());
        let mut out: Vec<I64F64> = Vec::new();
        let mut k: usize = 0;
        while k < row.len()
            invariant
                k <= row@.len(),
                row_sum.bits == sum64_bits(row@),
                out@.len() == k,
                row_sum.bits > 0 ==> forall|t: int| 0 <= t < k ==> #[trigger] out@[t] == row_normalized64(row@)[t],
                row_sum.bits <= 0 ==> forall|t: int| 0 <= t < k ==> #[trigger] out@[t] == row@[t],
            decreases row@.len() - k,
        {
            if row_sum.bits > 0 {
                match row[k].checked_div(row_sum) {
                    Some(q) => out.push(q),
                    None => out.push(I64F64::zero()),
                }
            } else {
                out.push(row[k]);
            }
            k = k + 1;
        }
        proof {
            assert(out@ =~= row_normalized64(row@));
        }
        result.push(out);
        i = i + 1;
    }
    *x = result;
}

/// One step of `matmul_64`: `acc_k + w * row_k` for each column present in
/// both, with checked arithmetic (an overflowing product counts as zero and an
/// overflowing sum keeps `acc_k`).
pub open spec fn matmul64_step(acc: Seq<I64F64>, row: Seq<I64F64>, w: I64F64) -> Seq<I64F64> {
    let n = if row.len() < acc.len() { row.len() } else { acc.len() };
    Seq::new(n, |k: int| {
        let p = if mul64_fits(w.bits as int, row[k].bits as int) { (w.bits * row[k].bits) / scale64() } else { 0 };
        if i128::MIN <= acc[k].bits + p <= i128::MAX { I64F64 { bits: (acc[k].bits + p) as i128 } } else { acc[k] }
    })
}

/// `matmul_64` over the first rows of the matrix, starting from `cols` zeros.
pub open spec fn matmul64_fold(m: Seq<Vec<I64F64>>, v: Seq<I64F64>, cols: int) -> Seq<I64F64>
    decreases m.len(),
{
    if m.len() == 0 {
        Seq::new(cols as nat, |k: int| I64F64 { bits: 0 })
    } else {
        matmul64_step(matmul64_fold(m.drop_last(), v, cols), m.last()@, v[m.len() - 1])
    }
}

/// The result of `matmul_64`: empty for an empty matrix or an empty first row.
pub open spec fn matmul64_spec(m: Seq<Vec<I64F64>>, v: Seq<I64F64>) -> Seq<I64F64> {
    if m.len() == 0 || m[0]@.len() == 0 { Seq::empty() } else { matmul64_fold(m, v, m[0]@.len() as int) }
}

/// Dense product `result_j = SUM_i vector_i * matrix_ij` with checked
/// arithmetic; the result has as many columns as the shortest row.
pub fn matmul_64(matrix: &[Vec<I64F64>], vector: &[I64F64]) -> (result: Vec<I64F64>)
    requires
        matrix@.len() > 0 && matrix@[0]@.len() > 0 ==> matrix@.len() == vector@.len(),
    ensures
        result@ == matmul64_spec(matrix@, vector@),
{
    if matrix.len() == 0 {
        return Vec::new();
    }
    let cols = matrix[0].len();
    if cols == 0 {
        return Vec::new();
    }
    let mut acc: Vec<I64F64> = Vec::new();
    let mut k: usize = 0;
    while k < cols
        invariant
            k <= cols,
            acc@ == Seq::new(k as nat, |t: int| I64F64 { bits: 0 }),
        decreases cols - k,
    {
        acc.push(I64F64::zero());
        proof {
            assert(acc@ =~= Seq::new((k + 1) as nat, |t: int| I64F64 { bits: 0 }));
        }
        k = k + 1;
    }
    let mut i: usize = 0;
    while i < matrix.len()
        invariant
            matrix@.len() == vector@.len(),
            i <= matrix@.len(),
            acc@ == matmul64_fold(matrix@.take(i as int), vector@, cols as int),
        decreases matrix@.len() - i,
    {
        proof {
            assert(matrix@.take(i + 1).drop_last() =~= matrix@.take(i as int));
        }
        let row = &matrix[i];
        let w = vector[i];
        let n = if row.len() < acc.len() { row.len() } else { acc.len() };
        let mut next: Vec<I64F64> = Vec::new();
        let mut k: usize = 0;
        while k < n
            invariant
                n == (if row@.len() < acc@.len() { row@.len() } else { acc@.len() }),
                k <= n,
                next@.len() == k,
                forall|t: int| 0 <= t < k ==> #[trigger] next@[t] == matmul64_step(acc@, row@, w)[t],
            decreases n - k,
        {
            let a = acc[k];
            let p = match w.checked_mul(row[k]) {
                Some(p) => p,
                None => I64F64::zero(),
            };
            match a.checked_add(p) {
                Some(s) => next.push(s),
                None => next.push(a),
            }
            k = k + 1;
        }
        proof {
            assert(next@ =~= matmul64_step(acc@, row@, w));
        }
        acc = next;
        i = i + 1;
    }
    proof {
        assert(matrix@.take(matrix@.len() as int) =~= matrix@);
    }
    acc
}

/// The integer part of a non-negative `I64F64` below `2^64`.
pub fn fixed64_to_u64(x: I64F64) -> (r: u64)
    requires
        0 <= x.bits as int / scale64() <= u64::MAX,
    ensures
        r == x.bits as int / scale64(),
{
    x.to_u64()
}

/// The integer parts of a vector of non-negative `I64F64` below `2^64`.
pub fn vec_fixed64_to_u64(vec: Vec<I64F64>) -> (r: Vec<u64>)
    requires
        forall|i: int| 0 <= i < vec@.len() ==> 0 <= #[trigger] vec@[i].bits as int / scale64() <= u64::MAX,
    ensures
        r@.len() == vec@.len(),
        forall|i: int| 0 <= i < r@.len() ==> #[trigger] r@[i] == vec@[i].bits as int / scale64(),
{
    let mut r: Vec<u64> = Vec::new();
    let mut i: usize = 0;
    while i < vec.len()
        invariant
            i <= vec@.len(),
            r@.len() == i,
            forall|t: int| 0 <= t < vec@.len() ==> 0 <= #[trigger] vec@[t].bits as int / scale64() <= u64::MAX,
            forall|t: int| 0 <= t < i ==> #[trigger] r@[t] == vec@[t].bits as int / scale64(),
        decreases vec@.len() - i,
    {
        r.push(fixed64_to_u64(vec[i]));
        i = i + 1;
    }
    r
}

/// Narrows a vector of `I64F64` to `I32F32`, dropping the extra fractional bits.
pub fn vec_fixed64_to_fixed32(vec: Vec<I64F64>) -> (r: Vec<I32F32>)
    requires
        forall|i: int| 0 <= i < vec@.len() ==> i64::MIN <= #[trigger] vec@[i].bits as int / scale32() <= i64::MAX,
    ensures
        r@.len() == vec@.len(),
        forall|i: int| 0 <= i < r@.len() ==> #[trigger] r@[i].bits == vec@[i].bits as int / scale32(),
{
    let mut r: Vec<I32F32> = Vec::new();
    let mut i: usize = 0;
    while i < vec.len()
        invariant
            i <= vec@.len(),
            r@.len() == i,
            forall|t: int| 0 <= t < vec@.len() ==> i64::MIN <= #[trigger] vec@[t].bits as int / scale32() <= i64::MAX,
            forall|t: int| 0 <= t < i ==> #[trigger] r@[t].bits == vec@[t].bits as int / scale32(),
        decreases vec@.len() - i,
    {
        r.push(vec[i].to_i32f32());
        i = i + 1;
    }
    r
}

} // verus!
