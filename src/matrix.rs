//! A symmetric matrix of values between every two items of a batch, each
//! value measured once for an unordered pair and mirrored.
use vstd::prelude::*;

verus! {

/// `rows[i]` holds the values between item `i` and each later item, in order:
/// one row for each of the `n` items, and `n - 1 - i` values in row `i`.
pub open spec fn is_upper_triangle<T>(rows: Seq<Vec<T>>) -> bool {
    forall|i: int| 0 <= i < rows.len() ==> (#[trigger] rows[i])@.len() == rows.len() - 1 - i
}

/// The entry at row `i`, column `j` of the full matrix: `diag` on the
/// diagonal, else the value measured for the pair.
pub open spec fn entry<T>(rows: Seq<Vec<T>>, diag: T, i: int, j: int) -> T {
    if i < j {
        rows[i]@[j - i - 1]
    } else if i == j {
        diag
    } else {
        rows[j]@[i - j - 1]
    }
}

/// The full `n` by `n` matrix from the values measured for each unordered
/// pair: entry `(i, j)` and entry `(j, i)` are both the value measured for
/// the pair, and each diagonal entry is `diag`.
pub fn pairwise_matrix<T: Copy>(rows: &Vec<Vec<T>>, diag: T) -> (r: Vec<Vec<T>>)
    requires
        is_upper_triangle(rows@),
    ensures
        r@.len() == rows@.len(),
        forall|i: int| 0 <= i < r@.len() ==> (#[trigger] r@[i])@.len() == rows@.len(),
        forall|i: int, j: int|
            #![trigger r@[i]@[j]]
            0 <= i < r@.len() && 0 <= j < r@.len() ==> r@[i]@[j] == entry(
                rows@,
                diag,
                i,
                j,
            ),
        forall|i: int, j: int|
            #![trigger r@[i]@[j]]
            0 <= i < r@.len() && 0 <= j < r@.len() ==> r@[i]@[j] == r@[j]@[i],
        forall|i: int| #![trigger r@[i]@[i]] 0 <= i < r@.len() ==> r@[i]@[i] == diag,
{
    let n = rows.len();
    let mut out: Vec<Vec<T>> = Vec::new();
    for i in 0..n
        invariant
            n == rows@.len(),
            is_upper_triangle(rows@),
            out@.len() == i,
            forall|a: int| 0 <= a < i ==> (#[trigger] out@[a])@.len() == n,
            forall|a: int, b: int|
                #![trigger out@[a]@[b]]
                0 <= a < i && 0 <= b < n ==> out@[a]@[b] == entry(rows@, diag, a, b),
    {
        let mut row: Vec<T> = Vec::new();
        for j in 0..n
            invariant
                n == rows@.len(),
                is_upper_triangle(rows@),
                0 <= i < n,
                row@.len() == j,
                forall|b: int| 0 <= b < j ==> row@[b] == entry(rows@, diag, i as int, b),
        {
            let v = if i < j {
                assert(rows@[i as int]@.len() == n - 1 - i);
                rows[i][j - i - 1]
            } else if i == j {
                diag
            } else {
                assert(rows@[j as int]@.len() == n - 1 - j);
                rows[j][i - j - 1]
            };
            row.push(v);
        }
        out.push(row);
    }
    out
}

} // verus!
