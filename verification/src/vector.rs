//! Elementwise width conversions between signed integer vectors and
//! matrices: the widening and narrowing steps that carry coefficient data
//! into the field's unsigned representation.

use vstd::prelude::*;

verus! {

/// Widens every entry of a vector from `i64` to `i128`.
pub fn i64_to_i128_vec(vector: &mut Vec<i64>) -> (r: Vec<i128>)
    ensures
        final(vector)@ == old(vector)@,
        r@.len() == old(vector)@.len(),
        forall|i: int| 0 <= i < r@.len() ==> #[trigger] r@[i] == old(vector)@[i] as i128,
{
    let mut out: Vec<i128> = Vec::new();
    let n = vector.len();
    for k in 0..n
        invariant
            vector@ == old(vector)@,
            n == vector@.len(),
            out@.len() == k,
            forall|i: int| 0 <= i < k ==> #[trigger] out@[i] == vector@[i] as i128,
    {
        out.push(vector[k] as i128);
    }
    out
}

/// Narrows every entry of a vector from `i128` to `u64`, truncating to the
/// low machine word.
pub fn i128_to_u64_vec(vector: &mut Vec<i128>) -> (r: Vec<u64>)
    ensures
        final(vector)@ == old(vector)@,
        r@.len() == old(vector)@.len(),
        forall|i: int| 0 <= i < r@.len() ==> #[trigger] r@[i] == old(vector)@[i] as u64,
{
    let mut out: Vec<u64> = Vec::new();
    let n = vector.len();
    for k in 0..n
        invariant
            vector@ == old(vector)@,
            n == vector@.len(),
            out@.len() == k,
            forall|i: int| 0 <= i < k ==> #[trigger] out@[i] == vector@[i] as u64,
    {
        out.push(#[verifier::truncate] (vector[k] as u64));
    }
    out
}

/// Widens every entry of a matrix from `i64` to `i128`.
pub fn i64_to_i128_matrix(matrix: &mut Vec<Vec<i64>>) -> (r: Vec<Vec<i128>>)
    ensures
        final(matrix)@ == old(matrix)@,
        r@.len() == old(matrix)@.len(),
        forall|i: int| 0 <= i < r@.len() ==> #[trigger] r@[i]@.len() == old(matrix)@[i]@.len(),
        forall|i: int, j: int|
            0 <= i < r@.len() && 0 <= j < r@[i]@.len()
                ==> #[trigger] r@[i]@[j] == old(matrix)@[i]@[j] as i128,
{
    let mut out: Vec<Vec<i128>> = Vec::new();
    let n = matrix.len();
    for k in 0..n
        invariant
            matrix@ == old(matrix)@,
            n == matrix@.len(),
            out@.len() == k,
            forall|i: int| 0 <= i < k ==> #[trigger] out@[i]@.len() == matrix@[i]@.len(),
            forall|i: int, j: int|
                0 <= i < k && 0 <= j < out@[i]@.len()
                    ==> #[trigger] out@[i]@[j] == matrix@[i]@[j] as i128,
    {
        let mut row: Vec<i128> = Vec::new();
        let width = matrix[k].len();
        for j in 0..width
            invariant
                matrix@ == old(matrix)@,
                n == matrix@.len(),
                k < n,
                width == matrix@[k as int]@.len(),
                row@.len() == j,
                forall|jj: int|
                    0 <= jj < j ==> #[trigger] row@[jj] == matrix@[k as int]@[jj] as i128,
        {
            row.push(matrix[k][j] as i128);
        }
        out.push(row);
    }
    out
}

/// Narrows every entry of a matrix from `i128` to `u64`, truncating to the
/// low machine word.
pub fn i128_to_u64_matrix(matrix: &mut Vec<Vec<i128>>) -> (r: Vec<Vec<u64>>)
    ensures
        final(matrix)@ == old(matrix)@,
        r@.len() == old(matrix)@.len(),
        forall|i: int| 0 <= i < r@.len() ==> #[trigger] r@[i]@.len() == old(matrix)@[i]@.len(),
        forall|i: int, j: int|
            0 <= i < r@.len() && 0 <= j < r@[i]@.len()
                ==> #[trigger] r@[i]@[j] == old(matrix)@[i]@[j] as u64,
{
    let mut out: Vec<Vec<u64>> = Vec::new();
    let n = matrix.len();
    for k in 0..n
        invariant
            matrix@ == old(matrix)@,
            n == matrix@.len(),
            out@.len() == k,
            forall|i: int| 0 <= i < k ==> #[trigger] out@[i]@.len() == matrix@[i]@.len(),
            forall|i: int, j: int|
                0 <= i < k && 0 <= j < out@[i]@.len()
                    ==> #[trigger] out@[i]@[j] == matrix@[i]@[j] as u64,
    {
        let mut row: Vec<u64> = Vec::new();
        let width = matrix[k].len();
        for j in 0..width
            invariant
                matrix@ == old(matrix)@,
                n == matrix@.len(),
                k < n,
                width == matrix@[k as int]@.len(),
                row@.len() == j,
                forall|jj: int|
                    0 <= jj < j ==> #[trigger] row@[jj] == matrix@[k as int]@[jj] as u64,
        {
            row.push(#[verifier::truncate] (matrix[k][j] as u64));
        }
        out.push(row);
    }
    out
}

} // verus!
