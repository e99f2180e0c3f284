//! Feature vectors and matrices: the ternary and binary value ranges,
//! binarisation, and sum pooling of the rows of a matrix.
//!
//! A feature vector is a `Vec<i8>` whose view is a `Seq<i8>`; a feature
//! matrix is a `Vec<Vec<i8>>`, one row per phoneme, whose deep view is a
//! `Seq<Seq<i8>>`.

use crate::error::FeatureError;
use vstd::prelude::*;

verus! {

/// Every value of the vector is -1, 0 or +1.
pub open spec fn is_ternary(v: Seq<i8>) -> bool {
    forall|j: int| 0 <= j < v.len() ==> -1 <= #[trigger] v[j] <= 1
}

/// Every value of the vector is 0 or 1.
pub open spec fn is_binary(v: Seq<i8>) -> bool {
    forall|j: int| 0 <= j < v.len() ==> 0 <= #[trigger] v[j] <= 1
}

/// Every row of the matrix is ternary.
pub open spec fn is_ternary_matrix(m: Seq<Seq<i8>>) -> bool {
    forall|i: int| 0 <= i < m.len() ==> is_ternary(#[trigger] m[i])
}

/// Every row of the matrix is binary.
pub open spec fn is_binary_matrix(m: Seq<Seq<i8>>) -> bool {
    forall|i: int| 0 <= i < m.len() ==> is_binary(#[trigger] m[i])
}

/// Every row of the matrix has `width` components.
pub open spec fn has_width(m: Seq<Seq<i8>>, width: nat) -> bool {
    forall|i: int| 0 <= i < m.len() ==> (#[trigger] m[i]).len() == width
}

/// A feature value with everything below zero raised to zero.
pub open spec fn binary_value(v: i8) -> i8 {
    if v > 0 {
        v
    } else {
        0
    }
}

/// The vector with each value replaced by its [`binary_value`].
pub open spec fn binarized_vector(v: Seq<i8>) -> Seq<i8> {
    Seq::new(v.len(), |j: int| binary_value(v[j]))
}

/// The matrix with each row replaced by its [`binarized_vector`].
pub open spec fn binarized(m: Seq<Seq<i8>>) -> Seq<Seq<i8>> {
    Seq::new(m.len(), |i: int| binarized_vector(m[i]))
}

/// A row of a matrix's deep view is the view of that row.
pub proof fn lemma_row_view(m: &Vec<Vec<i8>>, i: int)
    requires
        0 <= i < m.len(),
    ensures
        m.deep_view()[i] == m[i]@,
{
    assert(m.deep_view()[i] =~= m[i]@);
}

/// Binarising leaves a binary vector as it is.
pub proof fn lemma_binarized_vector_of_binary(v: Seq<i8>)
    requires
        is_binary(v),
    ensures
        binarized_vector(v) == v,
{
    assert(binarized_vector(v) =~= v);
}

/// Binarising leaves a binary matrix as it is.
pub proof fn lemma_binarized_of_binary(m: Seq<Seq<i8>>)
    requires
        is_binary_matrix(m),
    ensures
        binarized(m) == m,
{
    assert forall|i: int| 0 <= i < m.len() implies binarized(m)[i] == m[i] by {
        lemma_binarized_vector_of_binary(m[i]);
    }
    assert(binarized(m) =~= m);
}

/// Binarising a ternary matrix gives a binary matrix of the same shape.
pub proof fn lemma_binarized_of_ternary(m: Seq<Seq<i8>>)
    requires
        is_ternary_matrix(m),
    ensures
        is_binary_matrix(binarized(m)),
{
    assert forall|i: int| 0 <= i < m.len() implies is_binary(#[trigger] binarized(m)[i]) by {
        assert(is_ternary(m[i]));
    }
}

/// Binarising twice is the same as binarising once.
pub proof fn lemma_binarized_idempotent(m: Seq<Seq<i8>>)
    ensures
        binarized(binarized(m)) == binarized(m),
{
    assert forall|i: int| 0 <= i < m.len() implies binarized(binarized(m))[i] == binarized(
        m,
    )[i] by {
        assert(binarized_vector(binarized_vector(m[i])) =~= binarized_vector(m[i]));
    }
    assert(binarized(binarized(m)) =~= binarized(m));
}

/// Replaces every value of a feature vector by the larger of it and zero.
pub fn binarize_vector(v: &Vec<i8>) -> (r: Vec<i8>)
    ensures
        r@ == binarized_vector(v@),
        is_binary(v@) ==> r@ == v@,
{
    let mut out: Vec<i8> = Vec::new();
    let mut j: usize = 0;
    while j < v.len()
        invariant
            j <= v.len(),
            out.len() == j,
            forall|k: int| 0 <= k < j ==> out[k] == binary_value(v[k]),
        decreases v.len() - j,
    {
        let x: i8 = v[j];
        out.push(if x > 0 { x } else { 0 });
        j += 1;
    }
    proof {
        assert(out@ =~= binarized_vector(v@));
        if is_binary(v@) {
            lemma_binarized_vector_of_binary(v@);
        }
    }
    out
}

/// Replaces every value of a feature matrix by the larger of it and zero, so
/// that -1 and 0 both become 0 and +1 stays 1. A matrix that is binary
/// already comes back unchanged.
pub fn binarize(m: &Vec<Vec<i8>>) -> (r: Vec<Vec<i8>>)
    ensures
        r.deep_view() == binarized(m.deep_view()),
        r.len() == m.len(),
        is_binary_matrix(m.deep_view()) ==> r.deep_view() == m.deep_view(),
{
    let mut out: Vec<Vec<i8>> = Vec::new();
    let mut i: usize = 0;
    while i < m.len()
        invariant
            i <= m.len(),
            out.len() == i,
            forall|k: int| 0 <= k < i ==> (#[trigger] out[k])@ == binarized_vector(m[k]@),
        decreases m.len() - i,
    {
        out.push(binarize_vector(&m[i]));
        i += 1;
    }
    proof {
        assert forall|k: int| 0 <= k < m.len() implies out.deep_view()[k] == binarized(
            m.deep_view(),
        )[k] by {
            lemma_row_view(m, k);
            lemma_row_view(&out, k);
        }
        assert(out.deep_view() =~= binarized(m.deep_view()));
        if is_binary_matrix(m.deep_view()) {
            lemma_binarized_of_binary(m.deep_view());
        }
    }
    out
}

/// The number of components that every one of the first `n` rows has: the
/// length of the shortest of them, and 0 where `n` is 0.
pub open spec fn common_width(m: Seq<Seq<i8>>, n: nat) -> nat
    decreases n,
{
    if n == 0 {
        0
    } else if n == 1 {
        m[0].len()
    } else {
        let rest = common_width(m, (n - 1) as nat);
        if m[n - 1].len() < rest {
            m[n - 1].len()
        } else {
            rest
        }
    }
}

/// The sum of the values in column `j` of the first `n` rows.
pub open spec fn column_sum(m: Seq<Seq<i8>>, j: int, n: nat) -> int
    decreases n,
{
    if n == 0 {
        0
    } else {
        column_sum(m, j, (n - 1) as nat) + m[n - 1][j]
    }
}

/// The element-wise sum of all rows of the matrix, over the columns that
/// every row has.
pub open spec fn row_sums(m: Seq<Seq<i8>>) -> Seq<int> {
    Seq::new(common_width(m, m.len()), |j: int| column_sum(m, j, m.len()))
}

/// The counts of a pooled vector as mathematical integers.
pub open spec fn as_ints(v: Seq<u64>) -> Seq<int> {
    Seq::new(v.len(), |j: int| v[j] as int)
}

/// No row among the first `n` is shorter than their common width.
pub proof fn lemma_common_width_le(m: Seq<Seq<i8>>, n: nat, i: int)
    requires
        0 <= i < n,
    ensures
        common_width(m, n) <= m[i].len(),
    decreases n,
{
    if n > 1 && i < n - 1 {
        lemma_common_width_le(m, (n - 1) as nat, i);
    }
}

/// Rows of one width have that width in common.
pub proof fn lemma_common_width_uniform(m: Seq<Seq<i8>>, n: nat, width: nat)
    requires
        1 <= n <= m.len(),
        has_width(m, width),
    ensures
        common_width(m, n) == width,
    decreases n,
{
    if n > 1 {
        lemma_common_width_uniform(m, (n - 1) as nat, width);
    }
}

/// In a binary matrix a column's sum over `n` rows lies between 0 and `n`.
pub proof fn lemma_column_sum_bounds(m: Seq<Seq<i8>>, j: int, n: nat)
    requires
        n <= m.len(),
        is_binary_matrix(m),
        0 <= j < common_width(m, n),
    ensures
        0 <= column_sum(m, j, n) <= n,
    decreases n,
{
    if n > 0 {
        lemma_common_width_le(m, n, n - 1);
        assert(is_binary(m[n - 1]));
        assert(0 <= m[n - 1][j] <= 1);
        if n > 1 {
            lemma_column_sum_bounds(m, j, (n - 1) as nat);
        } else {
            assert(column_sum(m, j, 0) == 0);
        }
    }
}

/// Sum pooling: adds up the rows of a binary matrix, column by column.
///
/// There is no sum over no rows: an empty matrix is refused with
/// `EmptyInput`. The result has one entry for each column that every row
/// has.
pub fn sum_rows(m: &Vec<Vec<i8>>) -> (r: Result<Vec<u64>, FeatureError>)
    requires
        is_binary_matrix(m.deep_view()),
    ensures
        m.len() == 0 <==> r is Err,
        r is Err ==> r == Err::<Vec<u64>, FeatureError>(FeatureError::EmptyInput),
        r is Ok ==> as_ints(r->Ok_0@) == row_sums(m.deep_view()),
{
    let n = m.len();
    if n == 0 {
        return Err(FeatureError::EmptyInput);
    }
    let ghost rows = m.deep_view();
    let mut acc: Vec<u64> = Vec::new();
    let mut j: usize = 0;
    proof {
        lemma_row_view(m, 0);
        assert(is_binary(rows[0]));
    }
    while j < m[0].len()
        invariant
            n == m.len(),
            n > 0,
            rows == m.deep_view(),
            rows[0] == m[0]@,
            is_binary(rows[0]),
            j <= m[0].len(),
            acc.len() == j,
            forall|k: int| 0 <= k < j ==> acc[k] == column_sum(rows, k, 1),
        decreases m[0].len() - j,
    {
        let x: i8 = m[0][j];
        assert(x == rows[0][j as int]);
        assert(column_sum(rows, j as int, 1) == column_sum(rows, j as int, 0) + rows[0][j as int]);
        acc.push(if x > 0 { 1 } else { 0 });
        j += 1;
    }
    let mut i: usize = 1;
    while i < n
        invariant
            n == m.len(),
            1 <= i <= n,
            rows == m.deep_view(),
            is_binary_matrix(rows),
            acc.len() == common_width(rows, i as nat),
            forall|k: int| 0 <= k < acc.len() ==> acc[k] == column_sum(rows, k, i as nat),
        decreases n - i,
    {
        let row = &m[i];
        proof {
            lemma_row_view(m, i as int);
            assert(is_binary(rows[i as int]));
        }
        if row.len() < acc.len() {
            acc.truncate(row.len());
        }
        assert(acc.len() == common_width(rows, (i + 1) as nat));
        let mut j: usize = 0;
        while j < acc.len()
            invariant
                n == m.len(),
                1 <= i < n,
                rows == m.deep_view(),
                is_binary_matrix(rows),
                rows[i as int] == row@,
                is_binary(row@),
                acc.len() == common_width(rows, (i + 1) as nat),
                acc.len() <= common_width(rows, i as nat),
                acc.len() <= row.len(),
                j <= acc.len(),
                forall|k: int| 0 <= k < j ==> acc[k] == column_sum(rows, k, (i + 1) as nat),
                forall|k: int| j <= k < acc.len() ==> acc[k] == column_sum(rows, k, i as nat),
            decreases acc.len() - j,
        {
            let x: i8 = row[j];
            proof {
                lemma_column_sum_bounds(rows, j as int, i as nat);
                assert(column_sum(rows, j as int, (i + 1) as nat) == column_sum(
                    rows,
                    j as int,
                    i as nat,
                ) + rows[i as int][j as int]);
            }
            let s: u64 = acc[j] + (if x > 0 { 1 } else { 0 });
            acc.set(j, s);
            j += 1;
        }
        i += 1;
    }
    proof {
        assert(as_ints(acc@) =~= row_sums(rows));
    }
    Ok(acc)
}

} // verus!
