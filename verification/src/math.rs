//! Vector and sparse-matrix operations on fixed-point numbers used by the
//! consensus step. A sparse matrix is a vector of rows, each row a list of
//! `(column, value)` entries.
use vstd::prelude::*;
use crate::fixed::{I32F32, div32, mul32, add32, sub32, scale32, round32, trunc_div, sat64};

verus! {

/// Exact sum of the bit patterns of a sequence of `I32F32`.
pub open spec fn sum_bits(s: Seq<I32F32>) -> int
    decreases s.len(),
{
    if s.len() == 0 { 0 } else { sum_bits(s.drop_last()) + s.last().bits }
}

/// Whether every running sum of the sequence stays within `i64`, so that
/// summing it with plain fixed-point addition does not overflow.
pub open spec fn sum_fits(s: Seq<I32F32>) -> bool {
    forall|k: int| 0 <= k <= s.len() ==> i64::MIN <= #[trigger] sum_bits(s.take(k)) <= i64::MAX
}

/// A sequence normalized to sum to one; left unchanged when its sum is zero.
pub open spec fn normalized(s: Seq<I32F32>) -> Seq<I32F32> {
    if sum_bits(s) == 0 {
        s
    } else {
        Seq::new(s.len(), |i: int| I32F32 { bits: div32(s[i].bits as int, sum_bits(s)) as i64 })
    }
}

/// Each element divided by `d`; left unchanged when `d` is zero.
pub open spec fn divided_by(s: Seq<I32F32>, d: int) -> Seq<I32F32> {
    if d == 0 {
        s
    } else {
        Seq::new(s.len(), |i: int| I32F32 { bits: div32(s[i].bits as int, d) as i64 })
    }
}

/// The value of a 16-bit proportion, `x / 65535`, as an `I32F32`.
pub open spec fn proportion_bits(x: u16) -> int {
    div32(x * scale32(), 65535 * scale32())
}

/// The value `x * 65535` as a whole number, for a proportion `x` in `[0, 1]`.
pub open spec fn proportion_u16(x: I32F32) -> int {
    mul32(x.bits as int, 65535 * scale32()) / scale32()
}

proof fn lemma_take_succ<T>(s: Seq<T>, i: int)
    requires
        0 <= i < s.len(),
    ensures
        s.take(i + 1).drop_last() == s.take(i),
        s.take(i + 1).last() == s[i],
{
    assert(s.take(i + 1).drop_last() =~= s.take(i));
}

/// Sum of a vector (`iter().sum()`).
pub fn sum_fixed(x: &[I32F32]) -> (s: I32F32)
    requires
        sum_fits(x@),
    ensures
        s.bits == sum_bits(x@),
{
    let mut acc: i64 = 0;
    let mut i: usize = 0;
    while i < x.len()
        invariant
            i <= x.len(),
            sum_fits(x@),
            acc == sum_bits(x@.take(i as int)),
        decreases x.len() - i,
    {
        proof {
            lemma_take_succ(x@, i as int);
            assert(i64::MIN <= sum_bits(x@.take(i + 1)) <= i64::MAX);
        }
        acc = acc + x[i].bits;
        i = i + 1;
    }
    proof {
        assert(x@.take(x@.len() as int) =~= x@);
    }
    I32F32 { bits: acc }
}

/// Whether the elements of a vector sum to zero.
pub fn is_zero(vector: &[I32F32]) -> (r: bool)
    requires
        sum_fits(vector@),
    ensures
        r == (sum_bits(vector@) == 0),
{
    sum_fixed(vector).bits == 0
}

/// Divides every element by `x_sum` in place; does nothing when `x_sum` is zero.
pub fn inplace_normalize_using_sum(x: &mut Vec<I32F32>, x_sum: I32F32)
    ensures
        final(x)@ == divided_by(old(x)@, x_sum.bits as int),
{
    if x_sum.bits == 0 {
        return;
    }
    let ghost orig = x@;
    let mut i: usize = 0;
    while i < x.len()
        invariant
            x_sum.bits != 0,
            x@.len() == orig.len(),
            i <= x@.len(),
            forall|k: int| 0 <= k < i ==> x@[k].bits == div32(orig[k].bits as int, x_sum.bits as int),
            forall|k: int| i <= k < x@.len() ==> x@[k] == orig[k],
        decreases x@.len() - i,
    {
        let v = x[i].saturating_div(x_sum);
        x.set(i, v);
        i = i + 1;
    }
    assert(x@ =~= divided_by(orig, x_sum.bits as int));
}

/// Normalizes a vector so that it sums to one, in place; a vector that sums to
/// zero is left unchanged.
pub fn inplace_normalize(x: &mut Vec<I32F32>)
    requires
        sum_fits(old(x)@),
    ensures
        final(x)@ == normalized(old(x)@),
{
    let x_sum = sum_fixed(x.as_slice());
    inplace_normalize_using_sum(x, x_sum);
}

/// Converts a 16-bit proportion to a fixed-point fraction, `x / 65535`.
pub fn u16_proportion_to_fixed(x: u16) -> (r: I32F32)
    ensures
        r.bits == proportion_bits(x),
{
    I32F32::from_int(x as u32).saturating_div(I32F32::from_int(65535))
}

/// Converts a fixed-point fraction to a 16-bit proportion, `floor(x * 65535)`.
pub fn fixed_proportion_to_u16(x: I32F32) -> (r: u16)
    requires
        0 <= proportion_u16(x) <= u16::MAX,
    ensures
        r == proportion_u16(x),
{
    x.saturating_mul(I32F32::from_int(65535)).to_u16()
}


/// A sparse row without its entries in column `c`.
pub open spec fn without_column(row: Seq<(u16, I32F32)>, c: int) -> Seq<(u16, I32F32)> {
    row.filter(off_column(c))
}

/// Whether an entry lies outside column `c`.
pub open spec fn off_column(c: int) -> spec_fn((u16, I32F32)) -> bool {
    |e: (u16, I32F32)| e.0 as int != c
}

/// Copies a sparse row.
fn copy_row(row: &Vec<(u16, I32F32)>) -> (r: Vec<(u16, I32F32)>)
    ensures
        r@ == row@,
{
    let mut r: Vec<(u16, I32F32)> = Vec::new();
    let mut k: usize = 0;
    while k < row.len()
        invariant
            k <= row.len(),
            r@ == row@.take(k as int),
        decreases row.len() - k,
    {
        r.push(row[k]);
        proof {
            assert(row@.take(k + 1) =~= row@.take(k as int).push(row@[k as int]));
        }
        k = k + 1;
    }
    assert(row@.take(row@.len() as int) =~= row@);
    r
}

/// Returns a copy of a sparse matrix with its diagonal entries removed.
pub fn mask_diag_sparse(sparse_matrix: &[Vec<(u16, I32F32)>]) -> (result: Vec<Vec<(u16, I32F32)>>)
    ensures
        result@.len() == sparse_matrix@.len(),
        forall|i: int| 0 <= i < result@.len() ==> #[trigger] result@[i]@ == without_column(sparse_matrix@[i]@, i),
{
    let n = sparse_matrix.len();
    let mut result: Vec<Vec<(u16, I32F32)>> = Vec::new();
    let mut i: usize = 0;
    while i < n
        invariant
            n == sparse_matrix@.len(),
            i <= n,
            result@.len() == i,
            forall|t: int| 0 <= t < i ==> #[trigger] result@[t]@ == without_column(sparse_matrix@[t]@, t),
        decreases n - i,
    {
        let sparse_row = &sparse_matrix[i];
        let ghost pred = off_column(i as int);
        let mut row: Vec<(u16, I32F32)> = Vec::new();
        let mut k: usize = 0;
        while k < sparse_row.len()
            invariant
                k <= sparse_row@.len(),
                pred == off_column(i as int),
                row@ == sparse_row@.take(k as int).filter(pred),
            decreases sparse_row@.len() - k,
        {
            let (j, value) = sparse_row[k];
            proof {
                lemma_take_succ(sparse_row@, k as int);
                sparse_row@.take(k as int).lemma_filter_push(sparse_row@[k as int], pred);
                assert(sparse_row@.take(k + 1) =~= sparse_row@.take(k as int).push(sparse_row@[k as int]));
            }
            if i != j as usize {
                row.push((j, value));
            }
            k = k + 1;
        }
        proof {
            assert(sparse_row@.take(sparse_row@.len() as int) =~= sparse_row@);
        }
        result.push(row);
        i = i + 1;
    }
    result
}

/// Saturating sum of the values of a sparse row.
pub open spec fn row_sat_sum(row: Seq<(u16, I32F32)>) -> int
    decreases row.len(),
{
    if row.len() == 0 { 0 } else { add32(row_sat_sum(row.drop_last()), row.last().1.bits as int) }
}

/// Exact sum of the values of a sparse row.
pub open spec fn row_sum_bits(row: Seq<(u16, I32F32)>) -> int
    decreases row.len(),
{
    if row.len() == 0 { 0 } else { row_sum_bits(row.drop_last()) + row.last().1.bits }
}

/// Whether summing the values of a row with plain addition stays within `i64`.
pub open spec fn row_sum_fits(row: Seq<(u16, I32F32)>) -> bool {
    forall|k: int| 0 <= k <= row.len() ==> i64::MIN <= #[trigger] row_sum_bits(row.take(k)) <= i64::MAX
}

/// Saturating sum of each row of a sparse matrix.
pub fn row_sum_sparse(sparse_matrix: &[Vec<(u16, I32F32)>]) -> (result: Vec<I32F32>)
    ensures
        result@.len() == sparse_matrix@.len(),
        forall|i: int| 0 <= i < result@.len() ==> #[trigger] result@[i].bits == row_sat_sum(sparse_matrix@[i]@),
{
    let n = sparse_matrix.len();
    let mut result: Vec<I32F32> = Vec::new();
    let mut i: usize = 0;
    while i < n
        invariant
            n == sparse_matrix@.len(),
            i <= n,
            result@.len() == i,
            forall|t: int| 0 <= t < i ==> #[trigger] result@[t].bits == row_sat_sum(sparse_matrix@[t]@),
        decreases n - i,
    {
        let sparse_row = &sparse_matrix[i];
        let mut acc = I32F32::zero();
        let mut k: usize = 0;
        while k < sparse_row.len()
            invariant
                k <= sparse_row@.len(),
                acc.bits == row_sat_sum(sparse_row@.take(k as int)),
            decreases sparse_row@.len() - k,
        {
            proof {
                lemma_take_succ(sparse_row@, k as int);
            }
            acc = acc.saturating_add(sparse_row[k].1);
            k = k + 1;
        }
        proof {
            assert(sparse_row@.take(sparse_row@.len() as int) =~= sparse_row@);
        }
        result.push(acc);
        i = i + 1;
    }
    result
}

/// A sparse row with each value capped at its column's threshold; entries in
/// columns without a threshold are dropped.
pub open spec fn clip_row(row: Seq<(u16, I32F32)>, thr: Seq<I32F32>) -> Seq<(u16, I32F32)>
    decreases row.len(),
{
    if row.len() == 0 {
        row
    } else {
        let p = clip_row(row.drop_last(), thr);
        let (j, v) = row.last();
        if (j as int) < thr.len() {
            if thr[j as int].bits < v.bits { p.push((j, thr[j as int])) } else { p.push((j, v)) }
        } else {
            p
        }
    }
}

/// Returns a sparse matrix with every value above its column threshold set to
/// that threshold.
pub fn col_clip_sparse(sparse_matrix: &[Vec<(u16, I32F32)>], col_threshold: &[I32F32]) -> (result: Vec<Vec<(u16, I32F32)>>)
    ensures
        result@.len() == sparse_matrix@.len(),
        forall|i: int| 0 <= i < result@.len() ==> #[trigger] result@[i]@ == clip_row(sparse_matrix@[i]@, col_threshold@),
{
    let n = sparse_matrix.len();
    let mut result: Vec<Vec<(u16, I32F32)>> = Vec::new();
    let mut i: usize = 0;
    while i < n
        invariant
            n == sparse_matrix@.len(),
            i <= n,
            result@.len() == i,
            forall|t: int| 0 <= t < i ==> #[trigger] result@[t]@ == clip_row(sparse_matrix@[t]@, col_threshold@),
        decreases n - i,
    {
        let sparse_row = &sparse_matrix[i];
        let mut row: Vec<(u16, I32F32)> = Vec::new();
        let mut k: usize = 0;
        while k < sparse_row.len()
            invariant
                k <= sparse_row@.len(),
                row@ == clip_row(sparse_row@.take(k as int), col_threshold@),
            decreases sparse_row@.len() - k,
        {
            proof {
                lemma_take_succ(sparse_row@, k as int);
            }
            let (j, value) = sparse_row[k];
            if (j as usize) < col_threshold.len() {
                let t = col_threshold[j as usize];
                if t.bits < value.bits {
                    row.push((j, t));
                } else {
                    row.push((j, value));
                }
            }
            k = k + 1;
        }
        proof {
            assert(sparse_row@.take(sparse_row@.len() as int) =~= sparse_row@);
        }
        result.push(row);
        i = i + 1;
    }
    result
}

/// Empties the rows of a sparse matrix whose mask bit is set. An empty mask
/// masks nothing; otherwise the mask must have one bit per row.
pub fn mask_rows_sparse(mask: &[bool], sparse_matrix: &[Vec<(u16, I32F32)>]) -> (result: Vec<Vec<(u16, I32F32)>>)
    requires
        mask@.len() == 0 || mask@.len() == sparse_matrix@.len(),
    ensures
        result@.len() == sparse_matrix@.len(),
        forall|i: int| 0 <= i < result@.len() ==> #[trigger] result@[i]@ == (
            if mask@.len() != 0 && mask@[i] { Seq::<(u16, I32F32)>::empty() } else { sparse_matrix@[i]@ }),
{
    let n = sparse_matrix.len();
    let mut result: Vec<Vec<(u16, I32F32)>> = Vec::new();
    let mut i: usize = 0;
    while i < n
        invariant
            n == sparse_matrix@.len(),
            mask@.len() == 0 || mask@.len() == n,
            i <= n,
            result@.len() == i,
            forall|t: int| 0 <= t < i ==> #[trigger] result@[t]@ == (
                if mask@.len() != 0 && mask@[t] { Seq::<(u16, I32F32)>::empty() } else { sparse_matrix@[t]@ }),
        decreases n - i,
    {
        if mask.len() != 0 && mask[i] {
            result.push(Vec::new());
        } else {
            result.push(copy_row(&sparse_matrix[i]));
        }
        i = i + 1;
    }
    result
}

/// Sets to zero, in place, the elements whose mask bit is set. An empty mask
/// masks nothing; otherwise the mask must have one bit per element.
pub fn inplace_mask_vector(mask: &[bool], vector: &mut Vec<I32F32>)
    requires
        mask@.len() == 0 || mask@.len() == old(vector)@.len(),
    ensures
        final(vector)@.len() == old(vector)@.len(),
        forall|i: int| 0 <= i < final(vector)@.len() ==> #[trigger] final(vector)@[i] == (
            if mask@.len() != 0 && mask@[i] { I32F32 { bits: 0 } } else { old(vector)@[i] }),
{
    if mask.len() == 0 {
        return;
    }
    let ghost orig = vector@;
    let mut i: usize = 0;
    while i < vector.len()
        invariant
            mask@.len() == orig.len(),
            vector@.len() == orig.len(),
            i <= orig.len(),
            forall|t: int| 0 <= t < i ==> #[trigger] vector@[t] == (if mask@[t] { I32F32 { bits: 0 } } else { orig[t] }),
            forall|t: int| i <= t < orig.len() ==> #[trigger] vector@[t] == orig[t],
        decreases orig.len() - i,
    {
        if mask[i] {
            vector.set(i, I32F32::zero());
        }
        i = i + 1;
    }
}

/// Element-wise quotient `x / y`, with zero wherever `y` is zero.
pub fn vecdiv(x: &[I32F32], y: &[I32F32]) -> (result: Vec<I32F32>)
    requires
        x@.len() == y@.len(),
    ensures
        result@.len() == x@.len(),
        forall|i: int| 0 <= i < result@.len() ==> #[trigger] result@[i].bits == (
            if y@[i].bits == 0 { 0 } else { div32(x@[i].bits as int, y@[i].bits as int) }),
{
    let n = x.len();
    let mut result: Vec<I32F32> = Vec::new();
    let mut i: usize = 0;
    while i < n
        invariant
            n == x@.len(),
            x@.len() == y@.len(),
            i <= n,
            result@.len() == i,
            forall|t: int| 0 <= t < i ==> #[trigger] result@[t].bits == (
                if y@[t].bits == 0 { 0 } else { div32(x@[t].bits as int, y@[t].bits as int) }),
        decreases n - i,
    {
        if y[i].bits != 0 {
            result.push(x[i].saturating_div(y[i]));
        } else {
            result.push(I32F32::zero());
        }
        i = i + 1;
    }
    result
}

/// A sparse row with every value multiplied by `f`.
pub open spec fn scaled_row(row: Seq<(u16, I32F32)>, f: I32F32) -> Seq<(u16, I32F32)> {
    Seq::new(row.len(), |k: int| (row[k].0, I32F32 { bits: mul32(row[k].1.bits as int, f.bits as int) as i64 }))
}

/// Multiplies each row of a sparse matrix by the matching element of a vector;
/// rows without a matching element are kept as they are.
pub fn row_hadamard_sparse(sparse_matrix: &[Vec<(u16, I32F32)>], vector: &[I32F32]) -> (result: Vec<Vec<(u16, I32F32)>>)
    ensures
        result@.len() == sparse_matrix@.len(),
        forall|i: int| 0 <= i < result@.len() ==> #[trigger] result@[i]@ == (
            if i < vector@.len() { scaled_row(sparse_matrix@[i]@, vector@[i]) } else { sparse_matrix@[i]@ }),
{
    let n = sparse_matrix.len();
    let mut result: Vec<Vec<(u16, I32F32)>> = Vec::new();
    let mut i: usize = 0;
    while i < n
        invariant
            n == sparse_matrix@.len(),
            i <= n,
            result@.len() == i,
            forall|t: int| 0 <= t < i ==> #[trigger] result@[t]@ == (
                if t < vector@.len() { scaled_row(sparse_matrix@[t]@, vector@[t]) } else { sparse_matrix@[t]@ }),
        decreases n - i,
    {
        let sparse_row = &sparse_matrix[i];
        if i < vector.len() {
            let f = vector[i];
            let mut row: Vec<(u16, I32F32)> = Vec::new();
            let mut k: usize = 0;
            while k < sparse_row.len()
                invariant
                    k <= sparse_row@.len(),
                    row@ == scaled_row(sparse_row@.take(k as int), f),
                decreases sparse_row@.len() - k,
            {
                let (j, value) = sparse_row[k];
                row.push((j, value.saturating_mul(f)));
                proof {
                    assert(scaled_row(sparse_row@.take(k + 1), f) =~= scaled_row(sparse_row@.take(k as int), f).push(
                        (j, I32F32 { bits: mul32(value.bits as int, f.bits as int) as i64 })));
                }
                k = k + 1;
            }
            proof {
                assert(sparse_row@.take(sparse_row@.len() as int) =~= sparse_row@);
            }
            result.push(row);
        } else {
            result.push(copy_row(sparse_row));
        }
        i = i + 1;
    }
    result
}


/// A vector of `n` zeros.
pub open spec fn zeros(n: int) -> Seq<I32F32> {
    Seq::new(n as nat, |i: int| I32F32 { bits: 0 })
}

/// Adds `w * value` of each entry of a row into the accumulator slot of its
/// column (saturating); entries outside the accumulator are skipped.
pub open spec fn add_row_into(acc: Seq<I32F32>, row: Seq<(u16, I32F32)>, w: I32F32) -> Seq<I32F32>
    decreases row.len(),
{
    if row.len() == 0 {
        acc
    } else {
        let a = add_row_into(acc, row.drop_last(), w);
        let (j, v) = row.last();
        if (j as int) < a.len() {
            a.update(j as int, I32F32 { bits: add32(a[j as int].bits as int, mul32(w.bits as int, v.bits as int)) as i64 })
        } else {
            a
        }
    }
}

/// The sparse product `result_j = SUM_i vector_i * matrix_ij` over the first
/// rows of a matrix, accumulated row by row with saturating arithmetic.
pub open spec fn matmul_sparse_spec(m: Seq<Vec<(u16, I32F32)>>, v: Seq<I32F32>, columns: int) -> Seq<I32F32>
    decreases m.len(),
{
    if m.len() == 0 {
        zeros(columns)
    } else {
        let a = matmul_sparse_spec(m.drop_last(), v, columns);
        let i = m.len() - 1;
        if i < v.len() { add_row_into(a, m.last()@, v[i]) } else { a }
    }
}

proof fn lemma_add_row_into_len(acc: Seq<I32F32>, row: Seq<(u16, I32F32)>, w: I32F32)
    ensures
        add_row_into(acc, row, w).len() == acc.len(),
    decreases row.len(),
{
    if row.len() > 0 {
        lemma_add_row_into_len(acc, row.drop_last(), w);
    }
}

proof fn lemma_matmul_sparse_spec_len(m: Seq<Vec<(u16, I32F32)>>, v: Seq<I32F32>, columns: int)
    requires
        columns >= 0,
    ensures
        matmul_sparse_spec(m, v, columns).len() == columns,
    decreases m.len(),
{
    if m.len() > 0 {
        lemma_matmul_sparse_spec_len(m.drop_last(), v, columns);
        let a = matmul_sparse_spec(m.drop_last(), v, columns);
        if m.len() - 1 < v.len() {
            lemma_add_row_into_len(a, m.last()@, v[m.len() - 1]);
        }
    }
}

/// Adds `w * value` of each entry of `row` into `acc` in place.
fn add_row_into_exec(acc: &mut Vec<I32F32>, row: &Vec<(u16, I32F32)>, w: I32F32)
    ensures
        final(acc)@ == add_row_into(old(acc)@, row@, w),
{
    let ghost orig = acc@;
    let mut k: usize = 0;
    while k < row.len()
        invariant
            k <= row@.len(),
            acc@ == add_row_into(orig, row@.take(k as int), w),
        decreases row@.len() - k,
    {
        proof {
            lemma_take_succ(row@, k as int);
            lemma_add_row_into_len(orig, row@.take(k as int), w);
        }
        let (j, value) = row[k];
        if (j as usize) < acc.len() {
            let cur = acc[j as usize];
            acc.set(j as usize, cur.saturating_add(w.saturating_mul(value)));
        }
        k = k + 1;
    }
    proof {
        assert(row@.take(row@.len() as int) =~= row@);
    }
}

/// A vector of `n` zeros.
pub fn zero_vec(n: usize) -> (r: Vec<I32F32>)
    ensures
        r@ == zeros(n as int),
{
    let mut r: Vec<I32F32> = Vec::new();
    let mut i: usize = 0;
    while i < n
        invariant
            i <= n,
            r@ == zeros(i as int),
        decreases n - i,
    {
        r.push(I32F32::zero());
        proof {
            assert(r@ =~= zeros(i + 1));
        }
        i = i + 1;
    }
    r
}

/// Sparse matrix-vector product `result_j = SUM_i vector_i * matrix_ij` over
/// `columns` columns, with saturating arithmetic.
pub fn matmul_sparse(sparse_matrix: &[Vec<(u16, I32F32)>], vector: &[I32F32], columns: u16) -> (result: Vec<I32F32>)
    ensures
        result@ == matmul_sparse_spec(sparse_matrix@, vector@, columns as int),
        result@.len() == columns,
{
    let mut result = zero_vec(columns as usize);
    let mut i: usize = 0;
    while i < sparse_matrix.len()
        invariant
            i <= sparse_matrix@.len(),
            result@ == matmul_sparse_spec(sparse_matrix@.take(i as int), vector@, columns as int),
        decreases sparse_matrix@.len() - i,
    {
        proof {
            lemma_take_succ(sparse_matrix@, i as int);
        }
        if i < vector.len() {
            add_row_into_exec(&mut result, &sparse_matrix[i], vector[i]);
        }
        i = i + 1;
    }
    proof {
        assert(sparse_matrix@.take(sparse_matrix@.len() as int) =~= sparse_matrix@);
        lemma_matmul_sparse_spec_len(sparse_matrix@, vector@, columns as int);
    }
    result
}

/// `SUM_j vector_j * row_j` over the entries of a row whose column has a
/// vector element, with saturating arithmetic.
pub open spec fn row_dot(row: Seq<(u16, I32F32)>, v: Seq<I32F32>) -> int
    decreases row.len(),
{
    if row.len() == 0 {
        0
    } else {
        let a = row_dot(row.drop_last(), v);
        let (j, x) = row.last();
        if (j as int) < v.len() { add32(a, mul32(v[j as int].bits as int, x.bits as int)) } else { a }
    }
}

/// Product of a sparse matrix with a vector, `result_i = SUM_j vector_j * matrix_ij`.
pub fn matmul_transpose_sparse(sparse_matrix: &[Vec<(u16, I32F32)>], vector: &[I32F32]) -> (result: Vec<I32F32>)
    ensures
        result@.len() == sparse_matrix@.len(),
        forall|i: int| 0 <= i < result@.len() ==> #[trigger] result@[i].bits == row_dot(sparse_matrix@[i]@, vector@),
{
    let n = sparse_matrix.len();
    let mut result: Vec<I32F32> = Vec::new();
    let mut i: usize = 0;
    while i < n
        invariant
            n == sparse_matrix@.len(),
            i <= n,
            result@.len() == i,
            forall|t: int| 0 <= t < i ==> #[trigger] result@[t].bits == row_dot(sparse_matrix@[t]@, vector@),
        decreases n - i,
    {
        let sparse_row = &sparse_matrix[i];
        let mut acc = I32F32::zero();
        let mut k: usize = 0;
        while k < sparse_row.len()
            invariant
                k <= sparse_row@.len(),
                acc.bits == row_dot(sparse_row@.take(k as int), vector@),
            decreases sparse_row@.len() - k,
        {
            proof {
                lemma_take_succ(sparse_row@, k as int);
            }
            let (j, value) = sparse_row[k];
            if (j as usize) < vector.len() {
                acc = acc.saturating_add(vector[j as usize].saturating_mul(value));
            }
            k = k + 1;
        }
        proof {
            assert(sparse_row@.take(sparse_row@.len() as int) =~= sparse_row@);
        }
        result.push(acc);
        i = i + 1;
    }
    result
}

/// A sparse row whose values are divided by a per-row divisor; a zero divisor
/// leaves the row unchanged.
pub open spec fn row_divided(row: Seq<(u16, I32F32)>, d: int) -> Seq<(u16, I32F32)> {
    if d == 0 {
        row
    } else {
        Seq::new(row.len(), |k: int| (row[k].0, I32F32 { bits: div32(row[k].1.bits as int, d) as i64 }))
    }
}

/// Divides each value of a row by `d` (no change when `d` is zero).
fn divide_row(row: &Vec<(u16, I32F32)>, d: I32F32) -> (r: Vec<(u16, I32F32)>)
    ensures
        r@ == row_divided(row@, d.bits as int),
{
    if d.bits == 0 {
        return copy_row(row);
    }
    let mut r: Vec<(u16, I32F32)> = Vec::new();
    let mut k: usize = 0;
    while k < row.len()
        invariant
            d.bits != 0,
            k <= row@.len(),
            r@ == row_divided(row@.take(k as int), d.bits as int),
        decreases row@.len() - k,
    {
        let (j, value) = row[k];
        r.push((j, value.saturating_div(d)));
        proof {
            assert(row_divided(row@.take(k + 1), d.bits as int) =~= row_divided(row@.take(k as int), d.bits as int).push(
                (j, I32F32 { bits: div32(value.bits as int, d.bits as int) as i64 })));
        }
        k = k + 1;
    }
    proof {
        assert(row@.take(row@.len() as int) =~= row@);
    }
    r
}

/// Normalizes each row of a sparse matrix in place so that its values sum to
/// one; rows that sum to zero are left unchanged.
pub fn inplace_row_normalize_sparse(sparse_matrix: &mut Vec<Vec<(u16, I32F32)>>)
    requires
        forall|i: int| 0 <= i < old(sparse_matrix)@.len() ==> row_sum_fits(#[trigger] old(sparse_matrix)@[i]@),
    ensures
        final(sparse_matrix)@.len() == old(sparse_matrix)@.len(),
        forall|i: int| 0 <= i < final(sparse_matrix)@.len() ==> #[trigger] final(sparse_matrix)@[i]@
            == row_divided(old(sparse_matrix)@[i]@, row_sum_bits(old(sparse_matrix)@[i]@)),
{
    let n = sparse_matrix.len();
    let mut result: Vec<Vec<(u16, I32F32)>> = Vec::new();
    let mut i: usize = 0;
    while i < n
        invariant
            n == sparse_matrix@.len(),
            i <= n,
            result@.len() == i,
            forall|t: int| 0 <= t < n ==> row_sum_fits(#[trigger] sparse_matrix@[t]@),
            forall|t: int| 0 <= t < i ==> #[trigger] result@[t]@
                == row_divided(sparse_matrix@[t]@, row_sum_bits(sparse_matrix@[t]@)),
        decreases n - i,
    {
        let sparse_row = &sparse_matrix[i];
        assert(row_sum_fits(sparse_row@));
        let mut acc: i64 = 0;
        let mut k: usize = 0;
        while k < sparse_row.len()
            invariant
                k <= sparse_row@.len(),
                row_sum_fits(sparse_row@),
                acc == row_sum_bits(sparse_row@.take(k as int)),
            decreases sparse_row@.len() - k,
        {
            proof {
                lemma_take_succ(sparse_row@, k as int);
                assert(i64::MIN <= row_sum_bits(sparse_row@.take(k + 1)) <= i64::MAX);
            }
            acc = acc + sparse_row[k].1.bits;
            k = k + 1;
        }
        proof {
            assert(sparse_row@.take(sparse_row@.len() as int) =~= sparse_row@);
        }
        result.push(divide_row(sparse_row, I32F32 { bits: acc }));
        i = i + 1;
    }
    *sparse_matrix = result;
}


/// Adds the value of each entry of a row into the accumulator slot of its
/// column (saturating).
pub open spec fn sum_row_into(acc: Seq<I32F32>, row: Seq<(u16, I32F32)>) -> Seq<I32F32>
    decreases row.len(),
{
    if row.len() == 0 {
        acc
    } else {
        let a = sum_row_into(acc, row.drop_last());
        let (j, v) = row.last();
        if (j as int) < a.len() {
            a.update(j as int, I32F32 { bits: add32(a[j as int].bits as int, v.bits as int) as i64 })
        } else {
            a
        }
    }
}

/// Raises the accumulator slot of each entry's column to the entry's value
/// when that value is larger.
pub open spec fn max_row_into(acc: Seq<I32F32>, row: Seq<(u16, I32F32)>) -> Seq<I32F32>
    decreases row.len(),
{
    if row.len() == 0 {
        acc
    } else {
        let a = max_row_into(acc, row.drop_last());
        let (j, v) = row.last();
        if (j as int) < a.len() && a[j as int].bits < v.bits { a.update(j as int, v) } else { a }
    }
}

/// Saturating column sums of the first rows of a matrix, over `columns` columns.
pub open spec fn col_sums(m: Seq<Vec<(u16, I32F32)>>, columns: int) -> Seq<I32F32>
    decreases m.len(),
{
    if m.len() == 0 { zeros(columns) } else { sum_row_into(col_sums(m.drop_last(), columns), m.last()@) }
}

/// Column maxima of the first rows of a matrix (at least zero), over `columns` columns.
pub open spec fn col_maxes(m: Seq<Vec<(u16, I32F32)>>, columns: int) -> Seq<I32F32>
    decreases m.len(),
{
    if m.len() == 0 { zeros(columns) } else { max_row_into(col_maxes(m.drop_last(), columns), m.last()@) }
}

/// A row whose values are divided by the divisor of their column; values in a
/// column without a divisor, or with a zero one, are left unchanged.
pub open spec fn cols_divided(row: Seq<(u16, I32F32)>, d: Seq<I32F32>) -> Seq<(u16, I32F32)> {
    Seq::new(row.len(), |k: int|
        if (row[k].0 as int) < d.len() && d[row[k].0 as int].bits != 0 {
            (row[k].0, I32F32 { bits: div32(row[k].1.bits as int, d[row[k].0 as int].bits as int) as i64 })
        } else {
            row[k]
        })
}

proof fn lemma_sum_row_into_len(acc: Seq<I32F32>, row: Seq<(u16, I32F32)>)
    ensures
        sum_row_into(acc, row).len() == acc.len(),
    decreases row.len(),
{
    if row.len() > 0 {
        lemma_sum_row_into_len(acc, row.drop_last());
    }
}

proof fn lemma_max_row_into_len(acc: Seq<I32F32>, row: Seq<(u16, I32F32)>)
    ensures
        max_row_into(acc, row).len() == acc.len(),
    decreases row.len(),
{
    if row.len() > 0 {
        lemma_max_row_into_len(acc, row.drop_last());
    }
}

/// Saturating column sums of a matrix.
fn col_sums_exec(sparse_matrix: &Vec<Vec<(u16, I32F32)>>, columns: u16) -> (r: Vec<I32F32>)
    ensures
        r@ == col_sums(sparse_matrix@, columns as int),
        r@.len() == columns,
{
    let mut acc = zero_vec(columns as usize);
    let mut i: usize = 0;
    while i < sparse_matrix.len()
        invariant
            i <= sparse_matrix@.len(),
            acc@ == col_sums(sparse_matrix@.take(i as int), columns as int),
            acc@.len() == columns,
        decreases sparse_matrix@.len() - i,
    {
        proof {
            lemma_take_succ(sparse_matrix@, i as int);
        }
        let row = &sparse_matrix[i];
        let ghost start = acc@;
        let mut k: usize = 0;
        while k < row.len()
            invariant
                k <= row@.len(),
                acc@ == sum_row_into(start, row@.take(k as int)),
                start.len() == columns,
            decreases row@.len() - k,
        {
            proof {
                lemma_take_succ(row@, k as int);
                lemma_sum_row_into_len(start, row@.take(k as int));
            }
            let (j, value) = row[k];
            if (j as usize) < acc.len() {
                let cur = acc[j as usize];
                acc.set(j as usize, cur.saturating_add(value));
            }
            k = k + 1;
        }
        proof {
            assert(row@.take(row@.len() as int) =~= row@);
            lemma_sum_row_into_len(start, row@);
        }
        i = i + 1;
    }
    proof {
        assert(sparse_matrix@.take(sparse_matrix@.len() as int) =~= sparse_matrix@);
    }
    acc
}

/// Column maxima of a matrix (at least zero).
fn col_maxes_exec(sparse_matrix: &Vec<Vec<(u16, I32F32)>>, columns: u16) -> (r: Vec<I32F32>)
    ensures
        r@ == col_maxes(sparse_matrix@, columns as int),
        r@.len() == columns,
{
    let mut acc = zero_vec(columns as usize);
    let mut i: usize = 0;
    while i < sparse_matrix.len()
        invariant
            i <= sparse_matrix@.len(),
            acc@ == col_maxes(sparse_matrix@.take(i as int), columns as int),
            acc@.len() == columns,
        decreases sparse_matrix@.len() - i,
    {
        proof {
            lemma_take_succ(sparse_matrix@, i as int);
        }
        let row = &sparse_matrix[i];
        let ghost start = acc@;
        let mut k: usize = 0;
        while k < row.len()
            invariant
                k <= row@.len(),
                acc@ == max_row_into(start, row@.take(k as int)),
                start.len() == columns,
            decreases row@.len() - k,
        {
            proof {
                lemma_take_succ(row@, k as int);
                lemma_max_row_into_len(start, row@.take(k as int));
            }
            let (j, value) = row[k];
            if (j as usize) < acc.len() {
                if acc[j as usize].bits < value.bits {
                    acc.set(j as usize, value);
                }
            }
            k = k + 1;
        }
        proof {
            assert(row@.take(row@.len() as int) =~= row@);
            lemma_max_row_into_len(start, row@);
        }
        i = i + 1;
    }
    proof {
        assert(sparse_matrix@.take(sparse_matrix@.len() as int) =~= sparse_matrix@);
    }
    acc
}

/// Divides each value of a row by the divisor of its column.
fn divide_row_by_cols(row: &Vec<(u16, I32F32)>, d: &Vec<I32F32>) -> (r: Vec<(u16, I32F32)>)
    ensures
        r@ == cols_divided(row@, d@),
{
    let mut r: Vec<(u16, I32F32)> = Vec::new();
    let mut k: usize = 0;
    while k < row.len()
        invariant
            k <= row@.len(),
            r@ == cols_divided(row@.take(k as int), d@),
        decreases row@.len() - k,
    {
        let (j, value) = row[k];
        let ghost before = r@;
        if (j as usize) < d.len() && d[j as usize].bits != 0 {
            r.push((j, value.saturating_div(d[j as usize])));
        } else {
            r.push((j, value));
        }
        proof {
            assert(cols_divided(row@.take(k + 1), d@) =~= before.push(r@.last()));
        }
        k = k + 1;
    }
    proof {
        assert(row@.take(row@.len() as int) =~= row@);
    }
    r
}

/// Normalizes each column of a sparse matrix in place so that it sums to one
/// (saturating sums); columns that sum to zero, and entries outside the first
/// `columns` columns, are left unchanged.
pub fn inplace_col_normalize_sparse(sparse_matrix: &mut Vec<Vec<(u16, I32F32)>>, columns: u16)
    ensures
        final(sparse_matrix)@.len() == old(sparse_matrix)@.len(),
        forall|i: int| 0 <= i < final(sparse_matrix)@.len() ==> #[trigger] final(sparse_matrix)@[i]@
            == cols_divided(old(sparse_matrix)@[i]@, col_sums(old(sparse_matrix)@, columns as int)),
{
    let col_sum = col_sums_exec(sparse_matrix, columns);
    let n = sparse_matrix.len();
    let mut result: Vec<Vec<(u16, I32F32)>> = Vec::new();
    let mut i: usize = 0;
    while i < n
        invariant
            n == sparse_matrix@.len(),
            i <= n,
            result@.len() == i,
            forall|t: int| 0 <= t < i ==> #[trigger] result@[t]@ == cols_divided(sparse_matrix@[t]@, col_sum@),
        decreases n - i,
    {
        result.push(divide_row_by_cols(&sparse_matrix[i], &col_sum));
        i = i + 1;
    }
    *sparse_matrix = result;
}

/// Scales each column of a sparse matrix in place by its maximum so that the
/// largest value of every column becomes one; columns whose maximum is zero,
/// and entries outside the first `columns` columns, are left unchanged.
pub fn inplace_col_max_upscale_sparse(sparse_matrix: &mut Vec<Vec<(u16, I32F32)>>, columns: u16)
    ensures
        final(sparse_matrix)@.len() == old(sparse_matrix)@.len(),
        forall|i: int| 0 <= i < final(sparse_matrix)@.len() ==> #[trigger] final(sparse_matrix)@[i]@
            == cols_divided(old(sparse_matrix)@[i]@, col_maxes(old(sparse_matrix)@, columns as int)),
{
    let col_max = col_maxes_exec(sparse_matrix, columns);
    let n = sparse_matrix.len();
    let mut result: Vec<Vec<(u16, I32F32)>> = Vec::new();
    let mut i: usize = 0;
    while i < n
        invariant
            n == sparse_matrix@.len(),
            i <= n,
            result@.len() == i,
            forall|t: int| 0 <= t < i ==> #[trigger] result@[t]@ == cols_divided(sparse_matrix@[t]@, col_max@),
        decreases n - i,
    {
        result.push(divide_row_by_cols(&sparse_matrix[i], &col_max));
        i = i + 1;
    }
    *sparse_matrix = result;
}


/// The strictly positive elements of a dense row, as sparse entries.
pub open spec fn positive_entries(row: Seq<I32F32>) -> Seq<(u16, I32F32)>
    decreases row.len(),
{
    if row.len() == 0 {
        Seq::empty()
    } else {
        let p = positive_entries(row.drop_last());
        if row.last().bits > 0 { p.push(((row.len() - 1) as u16, row.last())) } else { p }
    }
}

/// Row `i` of the moving average `alpha * new + (1 - alpha) * old` over `n` columns.
pub open spec fn ema_row(new_row: Seq<(u16, I32F32)>, old_row: Seq<(u16, I32F32)>, alpha: I32F32, n: int) -> Seq<(u16, I32F32)> {
    let one_minus_alpha = I32F32 { bits: sub32(scale32(), alpha.bits as int) as i64 };
    positive_entries(add_row_into(add_row_into(zeros(n), new_row, alpha), old_row, one_minus_alpha))
}

/// Exponential moving average of two square sparse matrices,
/// `alpha * new + (1 - alpha) * old`, keeping only positive entries.
pub fn mat_ema_sparse(new: &[Vec<(u16, I32F32)>], old: &[Vec<(u16, I32F32)>], alpha: I32F32) -> (result: Vec<Vec<(u16, I32F32)>>)
    requires
        new@.len() == old@.len(),
    ensures
        result@.len() == new@.len(),
        forall|i: int| 0 <= i < result@.len() ==> #[trigger] result@[i]@
            == ema_row(new@[i]@, old@[i]@, alpha, new@.len() as int),
{
    let n = new.len();
    let one_minus_alpha = I32F32::one().saturating_sub(alpha);
    let mut result: Vec<Vec<(u16, I32F32)>> = Vec::new();
    let mut i: usize = 0;
    while i < n
        invariant
            n == new@.len(),
            n == old@.len(),
            one_minus_alpha.bits == sub32(scale32(), alpha.bits as int),
            i <= n,
            result@.len() == i,
            forall|t: int| 0 <= t < i ==> #[trigger] result@[t]@ == ema_row(new@[t]@, old@[t]@, alpha, n as int),
        decreases n - i,
    {
        let mut row = zero_vec(n);
        add_row_into_exec(&mut row, &new[i], alpha);
        add_row_into_exec(&mut row, &old[i], one_minus_alpha);
        proof {
            lemma_add_row_into_len(zeros(n as int), new@[i as int]@, alpha);
            lemma_add_row_into_len(add_row_into(zeros(n as int), new@[i as int]@, alpha), old@[i as int]@, one_minus_alpha);
        }
        let mut out: Vec<(u16, I32F32)> = Vec::new();
        let mut j: usize = 0;
        while j < row.len()
            invariant
                j <= row@.len(),
                out@ == positive_entries(row@.take(j as int)),
            decreases row@.len() - j,
        {
            proof {
                lemma_take_succ(row@, j as int);
            }
            let v = row[j];
            if v.bits > 0 {
                out.push((j as u16, v));
            }
            j = j + 1;
        }
        proof {
            assert(row@.take(row@.len() as int) =~= row@);
        }
        result.push(out);
        i = i + 1;
    }
    result
}

/// Whether element `j` comes before element `i` when the vector is sorted
/// ascending by a stable sort.
pub open spec fn sorts_before(v: Seq<I32F32>, j: int, i: int) -> bool {
    v[j].bits < v[i].bits || (v[j].bits == v[i].bits && j < i)
}

/// How many of the first `m` elements sort before element `i`.
pub open spec fn count_before(v: Seq<I32F32>, i: int, m: int) -> int
    decreases m,
{
    if m <= 0 { 0 } else { count_before(v, i, m - 1) + if sorts_before(v, m - 1, i) { 1int } else { 0int } }
}

/// The position of element `i` in the stably sorted vector.
pub open spec fn sorted_rank(v: Seq<I32F32>, i: int) -> int {
    count_before(v, i, v.len() as int)
}

proof fn lemma_count_before_bounds(v: Seq<I32F32>, i: int, m: int)
    requires
        0 <= m,
    ensures
        0 <= count_before(v, i, m) <= m,
    decreases m,
{
    if m > 0 {
        lemma_count_before_bounds(v, i, m - 1);
    }
}

/// Marks the `k` largest elements of a vector; ties go to the later element.
/// When the vector has at most `k` elements all of them are marked.
pub fn is_topk(vector: &[I32F32], k: usize) -> (result: Vec<bool>)
    ensures
        result@.len() == vector@.len(),
        forall|i: int| 0 <= i < result@.len() ==> #[trigger] result@[i] == (
            vector@.len() <= k || sorted_rank(vector@, i) >= vector@.len() - k),
{
    let n = vector.len();
    let mut result: Vec<bool> = Vec::new();
    let mut i: usize = 0;
    while i < n
        invariant
            n == vector@.len(),
            i <= n,
            result@.len() == i,
            forall|t: int| 0 <= t < i ==> #[trigger] result@[t] == (
                vector@.len() <= k || sorted_rank(vector@, t) >= vector@.len() - k),
        decreases n - i,
    {
        if n <= k {
            result.push(true);
        } else {
            let mut rank: usize = 0;
            let mut j: usize = 0;
            while j < n
                invariant
                    n == vector@.len(),
                    i < n,
                    j <= n,
                    rank == count_before(vector@, i as int, j as int),
                decreases n - j,
            {
                proof {
                    lemma_count_before_bounds(vector@, i as int, j as int);
                }
                if vector[j].bits < vector[i].bits || (vector[j].bits == vector[i].bits && j < i) {
                    rank = rank + 1;
                }
                j = j + 1;
            }
            result.push(rank >= n - k);
        }
        i = i + 1;
    }
    result
}


/// The largest bit pattern of a non-empty sequence.
pub open spec fn max_bits(s: Seq<I32F32>) -> int
    decreases s.len(),
{
    if s.len() <= 1 {
        s[0].bits as int
    } else {
        let m = max_bits(s.drop_last());
        if s.last().bits >= m { s.last().bits as int } else { m }
    }
}

/// `65535` as an `I32F32`.
pub open spec fn u16_max_bits() -> int { 65535 * scale32() }

/// `32768` as an `I32F32`.
pub open spec fn upscale_threshold_bits() -> int { 32768 * scale32() }

/// One element of `vec_max_upscale_to_u16`, given the largest element `mx`.
pub open spec fn upscale_u16(e: int, mx: int) -> int {
    if mx == 0 {
        mul32(e, u16_max_bits()) / scale32()
    } else if mx > upscale_threshold_bits() {
        round32(mul32(e, div32(u16_max_bits(), mx))) / scale32()
    } else {
        round32(div32(mul32(e, u16_max_bits()), mx)) / scale32()
    }
}

proof fn lemma_max_bits(s: Seq<I32F32>)
    requires
        s.len() >= 1,
    ensures
        forall|i: int| 0 <= i < s.len() ==> #[trigger] s[i].bits <= max_bits(s),
    decreases s.len(),
{
    if s.len() > 1 {
        lemma_max_bits(s.drop_last());
        assert forall|i: int| 0 <= i < s.len() implies #[trigger] s[i].bits <= max_bits(s) by {
            if i < s.len() - 1 {
                assert(s.drop_last()[i] == s[i]);
            }
        }
    }
}

proof fn lemma_round_bounded(a: int)
    requires
        0 <= a <= u16_max_bits(),
    ensures
        0 <= round32(a) <= u16_max_bits(),
        0 <= round32(a) / scale32() <= 65535,
{
    let fl = (a / scale32()) * scale32();
    assert(0 <= a / scale32() <= 65535);
    if a < u16_max_bits() {
        assert(a / scale32() <= 65534);
    } else {
        assert(a / scale32() == 65535);
        assert(fl == a);
    }
}

proof fn lemma_upscale_fits(e: int, mx: int)
    requires
        0 <= e <= mx,
        mx <= i64::MAX,
    ensures
        0 <= upscale_u16(e, mx) <= 65535,
        mx > upscale_threshold_bits() ==> {
            let q = div32(u16_max_bits(), mx);
            &&& 0 <= mul32(e, q) <= u16_max_bits()
        },
        0 < mx <= upscale_threshold_bits() ==> 0 <= div32(mul32(e, u16_max_bits()), mx) <= u16_max_bits(),
{
    let s = scale32();
    let u = u16_max_bits();
    if mx == 0 {
        assert(e == 0);
        assert(mul32(e, u) == 0);
    } else if mx > upscale_threshold_bits() {
        let q = (u * s) / mx;
        assert(0 <= q <= 2 * s && q * mx <= u * s) by (nonlinear_arith)
            requires mx > 32768 * s, u == 65535 * s, s == 0x1_0000_0000, q == (u * s) / mx;
        assert(trunc_div(u * s, mx) == q);
        assert(div32(u, mx) == q);
        let r = (e * q) / s;
        assert(0 <= r <= u) by (nonlinear_arith)
            requires 0 <= e <= mx, 0 <= q, q * mx <= u * s, s > 0, r == (e * q) / s, u >= 0;
        assert(mul32(e, q) == r);
        lemma_round_bounded(r);
    } else {
        let p = e * 65535;
        assert(e * u == p * s) by (nonlinear_arith)
            requires u == 65535 * s, p == e * 65535;
        assert((e * u) / s == p) by (nonlinear_arith)
            requires e * u == p * s, s > 0;
        assert(p <= 32768 * s * 65535) by (nonlinear_arith)
            requires 0 <= e <= mx, mx <= 32768 * s, p == e * 65535;
        assert(mul32(e, u) == p);
        let d = (p * s) / mx;
        assert(0 <= d <= u) by (nonlinear_arith)
            requires 0 <= e <= mx, mx > 0, p == e * 65535, u == 65535 * s, s > 0, d == (p * s) / mx;
        assert(trunc_div(p * s, mx) == d);
        assert(div32(p, mx) == d);
        lemma_round_bounded(d);
    }
}

/// Scales a non-negative vector so that its largest element becomes
/// `u16::MAX`, rounding to the nearest whole number. A zero vector maps to
/// zeros and an empty vector to an empty one.
pub fn vec_max_upscale_to_u16(vec: &[I32F32]) -> (result: Vec<u16>)
    requires
        forall|i: int| 0 <= i < vec@.len() ==> #[trigger] vec@[i].bits >= 0,
    ensures
        result@.len() == vec@.len(),
        forall|i: int| 0 <= i < result@.len() ==> #[trigger] result@[i] == upscale_u16(vec@[i].bits as int, max_bits(vec@)),
{
    let n = vec.len();
    let mut result: Vec<u16> = Vec::new();
    if n == 0 {
        return result;
    }
    let mut mx = vec[0];
    let mut i: usize = 1;
    while i < n
        invariant
            n == vec@.len(),
            1 <= i <= n,
            mx.bits == max_bits(vec@.take(i as int)),
        decreases n - i,
    {
        proof {
            assert(vec@.take(i + 1).drop_last() =~= vec@.take(i as int));
        }
        if vec[i].bits >= mx.bits {
            mx = vec[i];
        }
        i = i + 1;
    }
    proof {
        assert(vec@.take(n as int) =~= vec@);
        lemma_max_bits(vec@);
    }
    let u16_max = I32F32::from_int(65535);
    let threshold = I32F32::from_int(32768);
    let mut i: usize = 0;
    while i < n
        invariant
            n == vec@.len(),
            i <= n,
            mx.bits == max_bits(vec@),
            u16_max.bits == u16_max_bits(),
            threshold.bits == upscale_threshold_bits(),
            forall|t: int| 0 <= t < n ==> #[trigger] vec@[t].bits >= 0,
            forall|t: int| 0 <= t < n ==> #[trigger] vec@[t].bits <= mx.bits,
            result@.len() == i,
            forall|t: int| 0 <= t < i ==> #[trigger] result@[t] == upscale_u16(vec@[t].bits as int, mx.bits as int),
        decreases n - i,
    {
        let e = vec[i];
        proof {
            lemma_upscale_fits(e.bits as int, mx.bits as int);
        }
        let v: u16 = if mx.bits == 0 {
            e.saturating_mul(u16_max).to_u16()
        } else if mx.bits > threshold.bits {
            e.saturating_mul(u16_max.saturating_div(mx)).round().to_u16()
        } else {
            e.saturating_mul(u16_max).saturating_div(mx).round().to_u16()
        };
        result.push(v);
        i = i + 1;
    }
    result
}


/// The entries of a row whose flag is set, in order.
pub open spec fn select_entries(row: Seq<(u16, I32F32)>, keep: Seq<bool>) -> Seq<(u16, I32F32)>
    decreases row.len(),
{
    if row.len() == 0 {
        row
    } else {
        let p = select_entries(row.drop_last(), keep.take(row.len() - 1));
        if keep[row.len() - 1] { p.push(row.last()) } else { p }
    }
}

/// Whether some entry of the matrix has no element in `first` for its row or
/// no element in `second` for its column.
pub open spec fn mask_lookup_fails(m: Seq<Vec<(u16, I32F32)>>, first: Seq<u64>, second: Seq<u64>) -> bool {
    exists|i: int, k: int| 0 <= i < m.len() && 0 <= k < m[i]@.len() && #[trigger] lookup_misses(m, first, second, i, k)
}

/// Whether entry `k` of row `i` has no element in `first` for its row or none
/// in `second` for its column.
pub open spec fn lookup_misses(m: Seq<Vec<(u16, I32F32)>>, first: Seq<u64>, second: Seq<u64>, i: int, k: int) -> bool {
    i >= first.len() || m[i]@[k].0 as int >= second.len()
}

/// Whether `out` is `row` without the entries `(j, _)` for which
/// `mask_fn(a, second[j])` returned `true`.
pub open spec fn masked_row<F: Fn(u64, u64) -> bool>(out: Seq<(u16, I32F32)>, row: Seq<(u16, I32F32)>, a: u64, second: Seq<u64>, mask_fn: F) -> bool {
    exists|flags: Seq<bool>| {
        &&& flags.len() == row.len()
        &&& out == select_entries(row, flags)
        &&& forall|e: int| 0 <= e < flags.len() ==> mask_fn.ensures((a, second[row[e].0 as int]), !#[trigger] flags[e])
    }
}

/// Removes the entries `(i, j)` of a sparse matrix for which
/// `mask_fn(first_vector[i], second_vector[j])` holds. Returns `None` when an
/// entry has no matching element in either vector.
pub fn vec_mask_sparse_matrix(
    sparse_matrix: &[Vec<(u16, I32F32)>],
    first_vector: &[u64],
    second_vector: &[u64],
    mask_fn: impl Fn(u64, u64) -> bool,
) -> (result: Option<Vec<Vec<(u16, I32F32)>>>)
    requires
        forall|a: u64, b: u64| mask_fn.requires((a, b)),
    ensures
        result.is_none() <==> mask_lookup_fails(sparse_matrix@, first_vector@, second_vector@),
        result.is_some() ==> result.unwrap()@.len() == sparse_matrix@.len(),
        result.is_some() ==> forall|i: int| 0 <= i < sparse_matrix@.len() ==>
            #[trigger] masked_row(result.unwrap()@[i]@, sparse_matrix@[i]@, first_vector@[i], second_vector@, mask_fn),
{
    let n = sparse_matrix.len();
    let mut result: Vec<Vec<(u16, I32F32)>> = Vec::new();
    let mut i: usize = 0;
    while i < n
        invariant
            n == sparse_matrix@.len(),
            i <= n,
            result@.len() == i,
            forall|a: u64, b: u64| mask_fn.requires((a, b)),
            forall|t: int, e: int| 0 <= t < i && 0 <= e < sparse_matrix@[t]@.len() ==>
                !#[trigger] lookup_misses(sparse_matrix@, first_vector@, second_vector@, t, e),
            forall|t: int| 0 <= t < i ==>
                #[trigger] masked_row(result@[t]@, sparse_matrix@[t]@, first_vector@[t], second_vector@, mask_fn),
        decreases n - i,
    {
        let sparse_row = &sparse_matrix[i];
        let mut row: Vec<(u16, I32F32)> = Vec::new();
        let ghost mut keep: Seq<bool> = Seq::empty();
        let mut k: usize = 0;
        while k < sparse_row.len()
            invariant
                i < n,
                n == sparse_matrix@.len(),
                sparse_row@ == sparse_matrix@[i as int]@,
                k <= sparse_row@.len(),
                keep.len() == k,
                forall|a: u64, b: u64| mask_fn.requires((a, b)),
                row@ == select_entries(sparse_row@.take(k as int), keep),
                forall|q: int| #![trigger sparse_row@[q]] 0 <= q < k ==> !(i >= first_vector@.len() || sparse_row@[q].0 as int >= second_vector@.len()),
                forall|q: int| 0 <= q < k ==> mask_fn.ensures(
                    (first_vector@[i as int], second_vector@[sparse_row@[q].0 as int]), !#[trigger] keep[q]),
                result@.len() == i,
                forall|t: int, e: int| 0 <= t < i && 0 <= e < sparse_matrix@[t]@.len() ==>
                !#[trigger] lookup_misses(sparse_matrix@, first_vector@, second_vector@, t, e),
                forall|t: int| 0 <= t < i ==>
                #[trigger] masked_row(result@[t]@, sparse_matrix@[t]@, first_vector@[t], second_vector@, mask_fn),
            decreases sparse_row@.len() - k,
        {
            let (j, value) = sparse_row[k];
            if i >= first_vector.len() || (j as usize) >= second_vector.len() {
                proof {
                    let ii = i as int;
                    let kk = k as int;
                    assert(sparse_matrix@[ii]@[kk].0 == j);
                    assert(lookup_misses(sparse_matrix@, first_vector@, second_vector@, ii, kk));
                }
                return None;
            }
            let masked = mask_fn(first_vector[i], second_vector[j as usize]);
            proof {
                let nk = keep.push(!masked);
                assert(sparse_row@.take(k + 1).drop_last() =~= sparse_row@.take(k as int));
                assert(nk.take(k as int) =~= keep);
                keep = nk;
            }
            if !masked {
                row.push((j, value));
            }
            k = k + 1;
        }
        proof {
            assert(sparse_row@.take(sparse_row@.len() as int) =~= sparse_row@);
            assert forall|q: int| 0 <= q < sparse_matrix@[i as int]@.len() implies
                !#[trigger] lookup_misses(sparse_matrix@, first_vector@, second_vector@, i as int, q) by {
                assert(sparse_row@[q] == sparse_matrix@[i as int]@[q]);
            }
        }
        let ghost old_result = result@;
        result.push(row);
        proof {
            assert(result@[i as int]@ == select_entries(sparse_matrix@[i as int]@, keep));
            assert forall|t: int| 0 <= t < i + 1 implies
                #[trigger] masked_row(result@[t]@, sparse_matrix@[t]@, first_vector@[t], second_vector@, mask_fn) by {
                if t < i {
                    assert(result@[t] == old_result[t]);
                } else {
                    assert(keep.len() == sparse_matrix@[t]@.len());
                    assert forall|k: int| 0 <= k < keep.len() implies mask_fn.ensures(
                        (first_vector@[t], second_vector@[sparse_matrix@[t]@[k].0 as int]), !#[trigger] keep[k]) by {
                        assert(sparse_row@[k] == sparse_matrix@[t]@[k]);
                    }
                    assert(result@[t]@ == select_entries(sparse_matrix@[t]@, keep));
                }
            }
        }
        i = i + 1;
    }
    proof {
        assert forall|t: int, k: int| 0 <= t < sparse_matrix@.len() && 0 <= k < sparse_matrix@[t]@.len() implies
            !#[trigger] lookup_misses(sparse_matrix@, first_vector@, second_vector@, t, k) by {}
        assert(!mask_lookup_fails(sparse_matrix@, first_vector@, second_vector@));
    }
    Some(result)
}

} // verus!
