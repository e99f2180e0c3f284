//! The feature edit distance: an edit distance between two feature matrices
//! in which replacing one phoneme by another costs the number of features in
//! which they differ, and inserting or deleting a phoneme costs the number of
//! features that it specifies.
//!
//! Costs are whole numbers of features; nothing is divided by the number of
//! features. Two vectors of unequal length are compared over the positions
//! that both have.

use vstd::prelude::*;

verus! {

/// The number of positions below `n` at which `a` and `b` differ.
pub open spec fn differing(a: Seq<i8>, b: Seq<i8>, n: nat) -> nat
    decreases n,
{
    if n == 0 {
        0
    } else {
        differing(a, b, (n - 1) as nat) + if a[n - 1] != b[n - 1] {
            1nat
        } else {
            0nat
        }
    }
}

/// The number of positions that both vectors have.
pub open spec fn shared_len(a: Seq<i8>, b: Seq<i8>) -> nat {
    if a.len() < b.len() {
        a.len()
    } else {
        b.len()
    }
}

/// The Hamming distance of two feature vectors: the number of features in
/// which they differ. It is what replacing a phoneme by another costs.
pub open spec fn hamming(a: Seq<i8>, b: Seq<i8>) -> nat {
    differing(a, b, shared_len(a, b))
}

/// The number of positions below `n` at which `a` is not zero.
pub open spec fn specified(a: Seq<i8>, n: nat) -> nat
    decreases n,
{
    if n == 0 {
        0
    } else {
        specified(a, (n - 1) as nat) + if a[n - 1] != 0 {
            1nat
        } else {
            0nat
        }
    }
}

/// The markedness of a feature vector: the number of features that it
/// specifies as present or absent. It is what inserting or deleting a phoneme
/// costs.
pub open spec fn markedness(a: Seq<i8>) -> nat {
    specified(a, a.len())
}

/// The least cost of turning the first `i` rows of `a` into the first `j`
/// rows of `b` by deletions, insertions and substitutions.
pub open spec fn alignment_cost(a: Seq<Seq<i8>>, b: Seq<Seq<i8>>, i: nat, j: nat) -> nat
    decreases i + j,
{
    if i == 0 && j == 0 {
        0
    } else if i == 0 {
        alignment_cost(a, b, 0, (j - 1) as nat) + markedness(b[j - 1])
    } else if j == 0 {
        alignment_cost(a, b, (i - 1) as nat, 0) + markedness(a[i - 1])
    } else {
        let del = alignment_cost(a, b, (i - 1) as nat, j) + markedness(a[i - 1]);
        let ins = alignment_cost(a, b, i, (j - 1) as nat) + markedness(b[j - 1]);
        let sub = alignment_cost(a, b, (i - 1) as nat, (j - 1) as nat) + hamming(
            a[i - 1],
            b[j - 1],
        );
        if del <= ins && del <= sub {
            del
        } else if ins <= sub {
            ins
        } else {
            sub
        }
    }
}

/// The feature edit distance of two feature matrices.
pub open spec fn edit_distance(a: Seq<Seq<i8>>, b: Seq<Seq<i8>>) -> nat {
    alignment_cost(a, b, a.len(), b.len())
}

/// No row of the matrix has more than `w` components.
pub open spec fn rows_within(m: Seq<Seq<i8>>, w: nat) -> bool {
    forall|k: int| 0 <= k < m.len() ==> (#[trigger] m[k]).len() <= w
}

proof fn lemma_differing_le(a: Seq<i8>, b: Seq<i8>, n: nat)
    ensures
        differing(a, b, n) <= n,
    decreases n,
{
    if n > 0 {
        lemma_differing_le(a, b, (n - 1) as nat);
    }
}

proof fn lemma_differing_symmetric(a: Seq<i8>, b: Seq<i8>, n: nat)
    ensures
        differing(a, b, n) == differing(b, a, n),
    decreases n,
{
    if n > 0 {
        lemma_differing_symmetric(a, b, (n - 1) as nat);
    }
}

proof fn lemma_differing_self(a: Seq<i8>, n: nat)
    ensures
        differing(a, a, n) == 0,
    decreases n,
{
    if n > 0 {
        lemma_differing_self(a, (n - 1) as nat);
    }
}

proof fn lemma_specified_le(a: Seq<i8>, n: nat)
    ensures
        specified(a, n) <= n,
    decreases n,
{
    if n > 0 {
        lemma_specified_le(a, (n - 1) as nat);
    }
}

/// A substitution never costs more than the shorter vector is long.
pub proof fn lemma_hamming_le(a: Seq<i8>, b: Seq<i8>)
    ensures
        hamming(a, b) <= a.len(),
        hamming(a, b) <= b.len(),
{
    lemma_differing_le(a, b, shared_len(a, b));
}

/// The substitution cost does not depend on the direction.
pub proof fn lemma_hamming_symmetric(a: Seq<i8>, b: Seq<i8>)
    ensures
        hamming(a, b) == hamming(b, a),
{
    lemma_differing_symmetric(a, b, shared_len(a, b));
}

/// Replacing a phoneme by one with the same features costs nothing.
pub proof fn lemma_hamming_self(a: Seq<i8>)
    ensures
        hamming(a, a) == 0,
{
    lemma_differing_self(a, a.len());
}

/// An insertion or deletion never costs more than the vector is long.
pub proof fn lemma_markedness_le(a: Seq<i8>)
    ensures
        markedness(a) <= a.len(),
{
    lemma_specified_le(a, a.len());
}

/// Where no row is longer than `w`, aligning `i` rows with `j` rows costs at
/// most `w` for each row of the longer side.
pub proof fn lemma_alignment_cost_le(a: Seq<Seq<i8>>, b: Seq<Seq<i8>>, i: nat, j: nat, w: nat)
    requires
        i <= a.len(),
        j <= b.len(),
        rows_within(a, w),
        rows_within(b, w),
    ensures
        i >= j ==> alignment_cost(a, b, i, j) <= i * w,
        i <= j ==> alignment_cost(a, b, i, j) <= j * w,
    decreases i + j,
{
    if i == 0 && j == 0 {
    } else if i == 0 {
        lemma_alignment_cost_le(a, b, 0, (j - 1) as nat, w);
        lemma_markedness_le(b[j - 1]);
        assert((j - 1) * w + w == j * w) by (nonlinear_arith);
    } else if j == 0 {
        lemma_alignment_cost_le(a, b, (i - 1) as nat, 0, w);
        lemma_markedness_le(a[i - 1]);
        assert((i - 1) * w + w == i * w) by (nonlinear_arith);
    } else {
        lemma_alignment_cost_le(a, b, (i - 1) as nat, (j - 1) as nat, w);
        lemma_hamming_le(a[i - 1], b[j - 1]);
        assert((i - 1) * w + w == i * w) by (nonlinear_arith);
        assert((j - 1) * w + w == j * w) by (nonlinear_arith);
    }
}

/// Aligning the first `i` rows of a matrix with themselves costs nothing.
pub proof fn lemma_alignment_cost_self(a: Seq<Seq<i8>>, i: nat)
    ensures
        alignment_cost(a, a, i, i) == 0,
    decreases i,
{
    if i > 0 {
        lemma_alignment_cost_self(a, (i - 1) as nat);
        lemma_hamming_self(a[i - 1]);
    }
}

/// Swapping the two matrices, and with them the roles of insertion and
/// deletion, leaves the cost of an alignment as it is.
pub proof fn lemma_alignment_cost_symmetric(a: Seq<Seq<i8>>, b: Seq<Seq<i8>>, i: nat, j: nat)
    ensures
        alignment_cost(a, b, i, j) == alignment_cost(b, a, j, i),
    decreases i + j,
{
    if i == 0 && j == 0 {
    } else if i == 0 {
        lemma_alignment_cost_symmetric(a, b, 0, (j - 1) as nat);
    } else if j == 0 {
        lemma_alignment_cost_symmetric(a, b, (i - 1) as nat, 0);
    } else {
        lemma_alignment_cost_symmetric(a, b, (i - 1) as nat, j);
        lemma_alignment_cost_symmetric(a, b, i, (j - 1) as nat);
        lemma_alignment_cost_symmetric(a, b, (i - 1) as nat, (j - 1) as nat);
        lemma_hamming_symmetric(a[i - 1], b[j - 1]);
    }
}

/// The distance of a matrix from itself is zero.
pub proof fn lemma_edit_distance_self(a: Seq<Seq<i8>>)
    ensures
        edit_distance(a, a) == 0,
{
    lemma_alignment_cost_self(a, a.len());
}

/// The distance from `a` to `b` is the distance from `b` to `a`.
pub proof fn lemma_edit_distance_symmetric(a: Seq<Seq<i8>>, b: Seq<Seq<i8>>)
    ensures
        edit_distance(a, b) == edit_distance(b, a),
{
    lemma_alignment_cost_symmetric(a, b, a.len(), b.len());
}

/// Counts the features in which two vectors differ: the cost of replacing a
/// phoneme that has the one vector by a phoneme that has the other.
pub fn substitution_cost(a: &Vec<i8>, b: &Vec<i8>) -> (c: usize)
    ensures
        c == hamming(a@, b@),
{
    let n: usize = if a.len() < b.len() {
        a.len()
    } else {
        b.len()
    };
    let mut c: usize = 0;
    let mut k: usize = 0;
    while k < n
        invariant
            n == shared_len(a@, b@),
            k <= n,
            c <= k,
            c == differing(a@, b@, k as nat),
        decreases n - k,
    {
        if a[k] != b[k] {
            c += 1;
        }
        k += 1;
    }
    c
}

/// Counts the features that a vector specifies, that is its values other
/// than zero: the cost of inserting or deleting a phoneme that has it.
pub fn indel_cost(a: &Vec<i8>) -> (c: usize)
    ensures
        c == markedness(a@),
{
    let mut c: usize = 0;
    let mut k: usize = 0;
    while k < a.len()
        invariant
            k <= a.len(),
            c <= k,
            c == specified(a@, k as nat),
        decreases a.len() - k,
    {
        if a[k] != 0 {
            c += 1;
        }
        k += 1;
    }
    c
}

/// The feature edit distance of two feature matrices, one row per phoneme.
///
/// It is computed row by row over the table of alignment costs, of which
/// only the current row is kept. The result is wide enough for any two
/// matrices that fit in memory, so no input is refused.
pub fn feature_distance(a: &Vec<Vec<i8>>, b: &Vec<Vec<i8>>) -> (d: u128)
    ensures
        d == edit_distance(a.deep_view(), b.deep_view()),
        a.deep_view() == b.deep_view() ==> d == 0,
{
    proof {
        lemma_edit_distance_self(a.deep_view());
    }
    let n = a.len();
    let m = b.len();
    let ghost sa = a.deep_view();
    let ghost sb = b.deep_view();
    let ghost w: nat = 0xffff_ffff_ffff_ffff;
    proof {
        assert forall|k: int| 0 <= k < sa.len() implies (#[trigger] sa[k]).len() <= w by {
            assert(sa[k] =~= a[k]@);
            assert(a[k].len() == a[k]@.len());
        }
        assert forall|k: int| 0 <= k < sb.len() implies (#[trigger] sb[k]).len() <= w by {
            assert(sb[k] =~= b[k]@);
            assert(b[k].len() == b[k]@.len());
        }
    }
    // `row[k]` is the cost for column `k + 1`; the cost for column 0 is kept
    // apart in `first`, so that the row is no longer than `b`.
    let mut row: Vec<u128> = Vec::new();
    let mut first: u128 = 0;
    let mut left: u128 = 0;
    let mut j: usize = 0;
    while j < m
        invariant
            m == b.len(),
            sa == a.deep_view(),
            sb == b.deep_view(),
            w == 0xffff_ffff_ffff_ffff,
            rows_within(sa, w),
            rows_within(sb, w),
            j <= m,
            row.len() == j,
            left == alignment_cost(sa, sb, 0, j as nat),
            forall|k: int| 0 <= k < j ==> row[k] == alignment_cost(sa, sb, 0, (k + 1) as nat),
        decreases m - j,
    {
        let ins = indel_cost(&b[j]);
        proof {
            assert(sb[j as int] =~= b[j as int]@);
            lemma_alignment_cost_le(sa, sb, 0, j as nat, w);
        }
        left = left + ins as u128;
        row.push(left);
        j += 1;
    }
    let mut i: usize = 0;
    while i < n
        invariant
            n == a.len(),
            m == b.len(),
            sa == a.deep_view(),
            sb == b.deep_view(),
            w == 0xffff_ffff_ffff_ffff,
            rows_within(sa, w),
            rows_within(sb, w),
            i <= n,
            row.len() == m,
            first == alignment_cost(sa, sb, i as nat, 0),
            forall|k: int|
                0 <= k < m ==> row[k] == alignment_cost(sa, sb, i as nat, (k + 1) as nat),
        decreases n - i,
    {
        let del = indel_cost(&a[i]);
        proof {
            assert(sa[i as int] =~= a[i as int]@);
            lemma_alignment_cost_le(sa, sb, i as nat, 0, w);
        }
        let mut diag: u128 = first;
        first = first + del as u128;
        let mut left: u128 = first;
        let mut j: usize = 0;
        while j < m
            invariant
                n == a.len(),
                m == b.len(),
                sa == a.deep_view(),
                sb == b.deep_view(),
                w == 0xffff_ffff_ffff_ffff,
                rows_within(sa, w),
                rows_within(sb, w),
                i < n,
                j <= m,
                row.len() == m,
                sa[i as int] == a[i as int]@,
                del == markedness(sa[i as int]),
                diag == alignment_cost(sa, sb, i as nat, j as nat),
                left == alignment_cost(sa, sb, (i + 1) as nat, j as nat),
                first == alignment_cost(sa, sb, (i + 1) as nat, 0),
                forall|k: int|
                    0 <= k < j ==> row[k] == alignment_cost(sa, sb, (i + 1) as nat, (k + 1) as nat),
                forall|k: int|
                    j <= k < m ==> row[k] == alignment_cost(sa, sb, i as nat, (k + 1) as nat),
            decreases m - j,
        {
            let up: u128 = row[j];
            let ins = indel_cost(&b[j]);
            let sub = substitution_cost(&a[i], &b[j]);
            proof {
                assert(sb[j as int] =~= b[j as int]@);
                lemma_alignment_cost_le(sa, sb, i as nat, (j + 1) as nat, w);
                lemma_alignment_cost_le(sa, sb, (i + 1) as nat, j as nat, w);
                lemma_alignment_cost_le(sa, sb, i as nat, j as nat, w);
            }
            let by_del: u128 = up + del as u128;
            let by_ins: u128 = left + ins as u128;
            let by_sub: u128 = diag + sub as u128;
            let best: u128 = if by_del <= by_ins && by_del <= by_sub {
                by_del
            } else if by_ins <= by_sub {
                by_ins
            } else {
                by_sub
            };
            diag = up;
            left = best;
            row.set(j, best);
            j += 1;
        }
        i += 1;
    }
    if m == 0 {
        first
    } else {
        row[m - 1]
    }
}

} // verus!
