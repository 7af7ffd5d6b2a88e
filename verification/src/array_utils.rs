//! Packed upper-triangle storage: the relation between the length of a packed
//! array and the order of its matrix, and the expansion into a dense matrix.

use vstd::prelude::*;
use crate::dense::{is_square, DenseMatrix};

verus! {

/// Number of entries in the upper triangle (diagonal included) of a square
/// matrix of order `n`.
pub open spec fn triangular(n: nat) -> nat {
    n * (n + 1) / 2
}

/// Whether `len` is the packed length of some square matrix.
pub open spec fn is_triangular(len: nat) -> bool {
    exists|n: nat| triangular(n) == len
}

/// Position of the entry in row `i`, column `j` (`i <= j`, both counted from
/// zero) inside the column-major packed upper triangle.
pub open spec fn packed_index(i: nat, j: nat) -> nat {
    i + triangular(j)
}

/// The matrix of order zero has no entries.
pub proof fn lemma_triangular_zero()
    ensures
        triangular(0) == 0,
{
}

/// The triangular numbers grow with their argument.
pub proof fn lemma_triangular_monotonic(a: nat, b: nat)
    requires
        a <= b,
    ensures
        triangular(a) <= triangular(b),
{
    assert(a * (a + 1) <= b * (b + 1)) by (nonlinear_arith)
        requires
            a <= b,
    ;
}

/// Each triangular number is the previous one plus the new column's height.
pub proof fn lemma_triangular_step(n: nat)
    ensures
        triangular(n + 1) == triangular(n) + n + 1,
{
    assert((n + 1) * (n + 2) == n * (n + 1) + 2 * (n + 1)) by (nonlinear_arith);
}

/// Errors of the packed-array functions.
#[derive(Debug, Clone, Copy, PartialEq, Eq, Structural)]
pub enum ArrayError {
    /// The length of the packed array is not `n * (n + 1) / 2` for any `n`.
    NotTriangular,
}

/// Order of the largest square matrix whose packed upper triangle fits into
/// `length` entries.
fn floor_dimension(length: usize) -> (dimension: usize)
    ensures
        triangular(dimension as nat) <= length < triangular(dimension as nat + 1),
        forall|n: nat| triangular(n) == length ==> dimension == n,
{
    let len: u128 = length as u128;
    let mut lo: u128 = 0;
    let mut hi: u128 = 0x2_0000_0000;
    proof {
        assert(triangular(0) == 0);
        assert(0x2_0000_0000 * 0x2_0000_0001 == 0x4_0000_0002_0000_0000) by (nonlinear_arith);
        assert(triangular(0x2_0000_0000) > u64::MAX);
    }
    while hi - lo > 1
        invariant
            lo < hi <= 0x2_0000_0000,
            len == length,
            triangular(lo as nat) <= len < triangular(hi as nat),
        decreases hi - lo,
    {
        let mid: u128 = lo + (hi - lo) / 2;
        assert(mid * (mid + 1) <= 0x2_0000_0000 * 0x2_0000_0001) by (nonlinear_arith)
            requires
                mid <= 0x2_0000_0000,
        ;
        let t: u128 = mid * (mid + 1) / 2;
        if t <= len {
            lo = mid;
        } else {
            hi = mid;
        }
    }
    proof {
        lemma_triangular_step(lo as nat);
        assert(lo * (lo + 1) >= 2 * lo) by (nonlinear_arith);
        assert(lo <= len);
        assert forall|n: nat| triangular(n) == length implies lo == n by {
            if n < lo {
                lemma_triangular_monotonic(n + 1, lo as nat);
                lemma_triangular_step(n);
            } else if n > lo {
                lemma_triangular_monotonic(lo as nat + 1, n);
            }
        }
    }
    lo as usize
}

/// Order `N` of the square matrix whose packed upper triangle has exactly
/// `lapack_ap_length` entries, the one `N` with `N * (N + 1) / 2` equal to
/// the length; an error for a length that no matrix has.
pub fn get_matrix_dimension(lapack_ap_length: usize) -> (result: Result<usize, ArrayError>)
    ensures
        match result {
            Ok(n) => triangular(n as nat) == lapack_ap_length,
            Err(e) => e == ArrayError::NotTriangular && !is_triangular(lapack_ap_length as nat),
        },
        forall|n: nat| triangular(n) == lapack_ap_length ==> result == Ok::<usize, ArrayError>(
            n as usize,
        ),
{
    let n = floor_dimension(lapack_ap_length);
    // n <= lapack_ap_length, so the product below stays within u128.
    let wide: u128 = n as u128;
    assert(wide * (wide + 1) <= 0x1_0000_0000_0000_0000 * 0x1_0000_0000_0000_0001) by (nonlinear_arith)
        requires
            wide <= 0x1_0000_0000_0000_0000,
    ;
    if wide * (wide + 1) / 2 == lapack_ap_length as u128 {
        Ok(n)
    } else {
        Err(ArrayError::NotTriangular)
    }
}

/// The entry in row `i`, column `j` of the matrix that `packed` stands for:
/// taken from `packed` on and above the diagonal, zero below it.
pub open spec fn dense_entry(packed: Seq<i64>, i: int, j: int) -> i64 {
    if i <= j {
        packed[packed_index(i as nat, j as nat) as int]
    } else {
        0i64
    }
}

/// The upper triangular matrix of order `order` that `packed` stands for.
pub open spec fn dense_of(packed: Seq<i64>, order: nat) -> Seq<Seq<i64>> {
    Seq::new(order, |i: int| Seq::new(order, |j: int| dense_entry(packed, i, j)))
}

/// The upper triangle of the first `columns` columns of `rows`, column after
/// column, each from the top down to the diagonal.
pub open spec fn packed_of(rows: Seq<Seq<i64>>, columns: nat) -> Seq<i64>
    decreases columns,
{
    if columns == 0 {
        Seq::empty()
    } else {
        packed_of(rows, (columns - 1) as nat) + Seq::new(
            columns,
            |i: int| rows[i][columns - 1],
        )
    }
}

/// The packed upper triangle of `columns` columns has the triangular length
/// and holds the entry of row `i`, column `j` at `i + j * (j + 1) / 2`.
pub proof fn lemma_packed_of(rows: Seq<Seq<i64>>, columns: nat)
    ensures
        packed_of(rows, columns).len() == triangular(columns),
        forall|i: nat, j: nat|
            i <= j < columns ==> packed_of(rows, columns)[#[trigger] packed_index(i, j) as int]
                == rows[i as int][j as int],
    decreases columns,
{
    if columns > 0 {
        let before = (columns - 1) as nat;
        lemma_packed_of(rows, before);
        lemma_triangular_step(before);
        let column = Seq::new(columns, |i: int| rows[i][columns - 1]);
        assert(packed_of(rows, columns) == packed_of(rows, before) + column);
        assert(triangular(columns) == triangular(before) + columns);
        assert forall|i: nat, j: nat| i <= j < columns implies packed_of(
            rows,
            columns,
        )[#[trigger] packed_index(i, j) as int] == rows[i as int][j as int] by {
            if j < before {
                lemma_triangular_step(j);
                lemma_triangular_monotonic(j + 1, before);
            }
        }
    } else {
        lemma_triangular_zero();
    }
}

/// Packing a square matrix and expanding the result gives back the upper
/// triangle of the matrix, entry for entry.
pub proof fn lemma_expand_after_pack(rows: Seq<Seq<i64>>, i: nat, j: nat)
    requires
        is_square(rows),
        i <= j < rows.len(),
    ensures
        dense_of(packed_of(rows, rows.len()), rows.len())[i as int][j as int]
            == rows[i as int][j as int],
{
    lemma_packed_of(rows, rows.len());
}

/// Expanding a packed array of triangular length and packing the result
/// gives back the array.
pub proof fn lemma_pack_after_expand(packed: Seq<i64>, order: nat)
    requires
        packed.len() == triangular(order),
    ensures
        packed_of(dense_of(packed, order), order) == packed,
{
    lemma_packed_prefix(packed, order, order);
    assert(packed.take(packed.len() as int) =~= packed);
}

/// The first `columns` columns of an expanded array pack into the start of
/// the array.
pub proof fn lemma_packed_prefix(packed: Seq<i64>, order: nat, columns: nat)
    requires
        packed.len() == triangular(order),
        columns <= order,
    ensures
        triangular(columns) <= packed.len(),
        packed_of(dense_of(packed, order), columns) == packed.take(triangular(columns) as int),
    decreases columns,
{
    lemma_triangular_monotonic(columns, order);
    if columns > 0 {
        let before = (columns - 1) as nat;
        lemma_packed_prefix(packed, order, before);
        lemma_triangular_step(before);
        let rows = dense_of(packed, order);
        let column = Seq::new(columns, |i: int| rows[i][columns - 1]);
        assert(packed_of(rows, columns) == packed_of(rows, before) + column);
        assert(triangular(columns) == triangular(before) + columns);
        assert forall|i: int| 0 <= i < columns implies column[i] == packed[triangular(before) + i] by {
            assert(rows[i][columns - 1] == dense_entry(packed, i, columns - 1));
        }
        assert(packed_of(rows, columns) =~= packed.take(triangular(columns) as int));
    } else {
        lemma_triangular_zero();
        assert(packed_of(dense_of(packed, order), 0) =~= packed.take(0));
    }
}

/// Expands a packed upper triangle into the square matrix it stands for:
/// the entry of row `i`, column `j` with `i <= j` is the packed entry at
/// `i + j * (j + 1) / 2`, and the entries below the diagonal are zero. A
/// length that is not triangular is refused.
pub fn build_tri_up_array(matrix_elements: &Vec<i64>) -> (result: Result<DenseMatrix, ArrayError>)
    requires
        matrix_elements.len() * 16 <= isize::MAX,
    ensures
        match result {
            Ok(matrix) => triangular(matrix.rows().len()) == matrix_elements.len()
                && matrix.rows() == dense_of(matrix_elements@, matrix.rows().len()),
            Err(e) => e == ArrayError::NotTriangular && !is_triangular(
                matrix_elements.len() as nat,
            ),
        },
{
    let matrix_dim: usize = match get_matrix_dimension(matrix_elements.len()) {
        Ok(n) => n,
        Err(e) => { return Err(e); },
    };
    let ghost order = matrix_dim as nat;
    let ghost packed = matrix_elements@;
    proof {
        assert(matrix_dim * matrix_dim <= 2 * triangular(order)) by (nonlinear_arith)
            requires
                order == matrix_dim,
                triangular(order) == order * (order + 1) / 2,
        ;
    }
    let mut array = DenseMatrix::zeros(matrix_dim);
    let mut j: usize = 0;
    while j < matrix_dim
        invariant
            j <= matrix_dim,
            order == matrix_dim,
            packed == matrix_elements@,
            packed.len() == triangular(order),
            packed.len() * 16 <= isize::MAX,
            array.rows().len() == order,
            is_square(array.rows()),
            forall|a: int, b: int|
                0 <= a < order && 0 <= b < order ==> #[trigger] array.rows()[a][b] == if b < j {
                    dense_entry(packed, a, b)
                } else {
                    0i64
                },
        decreases matrix_dim - j,
    {
        proof {
            lemma_triangular_step(j as nat);
            lemma_triangular_monotonic(j as nat + 1, order);
            assert(j * (j + 1) <= 2 * triangular(j as nat) + 1) by (nonlinear_arith)
                requires
                    triangular(j as nat) == j * (j + 1) / 2,
            ;
        }
        let base: usize = j * (j + 1) / 2;
        let mut i: usize = 0;
        while i <= j
            invariant
                i <= j + 1,
                j < matrix_dim,
                order == matrix_dim,
                packed == matrix_elements@,
                base == triangular(j as nat),
                base + j < packed.len(),
                packed.len() == matrix_elements.len(),
                array.rows().len() == order,
                is_square(array.rows()),
                forall|a: int, b: int|
                    0 <= a < order && 0 <= b < order ==> #[trigger] array.rows()[a][b] == if b < j
                        || (b == j && a < i) {
                        dense_entry(packed, a, b)
                    } else {
                        0i64
                    },
            decreases j + 1 - i,
        {
            array.set_entry(i, j, matrix_elements[base + i]);
            i += 1;
        }
        j += 1;
    }
    assert(array.rows() =~~= dense_of(packed, order));
    Ok(array)
}

/// Packs the upper triangle of a square matrix column after column.
pub fn pack_tri_up_array(matrix: &DenseMatrix) -> (packed: Vec<i64>)
    requires
        is_square(matrix.rows()),
    ensures
        packed@ == packed_of(matrix.rows(), matrix.rows().len()),
        packed.len() == triangular(matrix.rows().len()),
{
    let order = matrix.nrows();
    let mut packed: Vec<i64> = Vec::new();
    let mut j: usize = 0;
    while j < order
        invariant
            j <= order,
            order == matrix.rows().len(),
            is_square(matrix.rows()),
            packed@ == packed_of(matrix.rows(), j as nat),
        decreases order - j,
    {
        let ghost start = packed@;
        let mut i: usize = 0;
        while i <= j
            invariant
                i <= j + 1,
                j < order,
                order == matrix.rows().len(),
                is_square(matrix.rows()),
                packed@ == start + Seq::new(i as nat, |k: int| matrix.rows()[k][j as int]),
            decreases j + 1 - i,
        {
            packed.push(matrix.entry(i, j));
            i += 1;
            assert(packed@ =~= start + Seq::new(i as nat, |k: int| matrix.rows()[k][j as int]));
        }
        j += 1;
    }
    proof {
        lemma_packed_of(matrix.rows(), order as nat);
    }
    packed
}

} // verus!
