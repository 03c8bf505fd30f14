//! Index and shape logic of Umeyama's rigid point-cloud alignment.

use vstd::prelude::*;

verus! {

/// Errors reported by the alignment.
#[derive(Debug, PartialEq, Eq, Structural, Clone, Copy)]
pub enum UmeyamaError {
    /// The number of points is zero or exceeds the number of columns supplied.
    InvalidPointCount,
    /// The singular value decomposition did not yield both rotation factors.
    InvalidSvd,
}

/// A point count is valid when it lies in `1..=capacity`.
pub open spec fn valid_point_count(point_count: nat, capacity: nat) -> bool {
    1 <= point_count <= capacity
}

/// Every count from one up to the number of columns is valid, and no other: a prefix
/// of the supplied points may be aligned.
pub proof fn lemma_valid_point_counts(point_count: nat, capacity: nat)
    ensures
        valid_point_count(point_count, capacity) <==> (1 <= point_count && point_count <= capacity),
        1 <= point_count && point_count <= capacity ==> valid_point_count(point_count, capacity),
        point_count == 0 ==> !valid_point_count(point_count, capacity),
        point_count > capacity ==> !valid_point_count(point_count, capacity),
{
}

/// Checks the number of points that take part in the alignment against the number of
/// columns (`capacity`) of the point matrices.
pub fn check_point_count(point_count: usize, capacity: usize) -> (r: Result<(), UmeyamaError>)
    ensures
        r is Ok <==> valid_point_count(point_count as nat, capacity as nat),
        r is Ok <==> 1 <= point_count && point_count <= capacity,
        r is Err <==> point_count == 0 || point_count > capacity,
        r is Err ==> r == Err::<(), _>(UmeyamaError::InvalidPointCount),
{
    if point_count < 1 || point_count > capacity {
        return Err(UmeyamaError::InvalidPointCount);
    }
    Ok(())
}

/// Whether column `column` of a point matrix holds one of the points in use; the
/// centered matrices hold zero in the other columns.
pub fn keeps_point_column(column: usize, point_count: usize) -> (keep: bool)
    ensures
        keep == (column < point_count),
{
    column < point_count
}

/// Takes the two rotation factors `U` and `Vᵀ` out of a singular value decomposition,
/// failing with `InvalidSvd` when either is missing.
pub fn rotation_factors<U, V>(u: Option<U>, v_t: Option<V>) -> (r: Result<(U, V), UmeyamaError>)
    ensures
        r is Ok <==> (u is Some && v_t is Some),
        r matches Ok((a, b)) ==> u == Some(a) && v_t == Some(b),
        r is Err ==> r->Err_0 == UmeyamaError::InvalidSvd,
{
    match (u, v_t) {
        (Some(a), Some(b)) => Ok((a, b)),
        _ => Err(UmeyamaError::InvalidSvd),
    }
}

/// The rows of a row-major matrix, each as a sequence.
pub open spec fn rows_of<T>(m: &Vec<Vec<T>>) -> Seq<Seq<T>> {
    m@.map_values(|row: Vec<T>| row@)
}

/// `m` has `rows` rows of `columns` entries each.
pub open spec fn has_shape<T>(m: Seq<Seq<T>>, rows: nat, columns: nat) -> bool {
    &&& m.len() == rows
    &&& forall|i: int| 0 <= i < rows ==> #[trigger] m[i].len() == columns
}

/// The reflection correction: the `dim × dim` identity whose last diagonal entry is
/// replaced by `sign`, the sign of the determinant of `U Vᵀ`.
pub fn reflection_correction<T: Copy>(dim: usize, zero: T, one: T, sign: T) -> (m: Vec<Vec<T>>)
    requires
        dim >= 1,
    ensures
        has_shape(rows_of(&m), dim as nat, dim as nat),
        forall|i: int, j: int|
            0 <= i < dim && 0 <= j < dim ==> #[trigger] rows_of(&m)[i][j] == if i == dim - 1 && j
                == dim - 1 {
                sign
            } else if i == j {
                one
            } else {
                zero
            },
{
    let mut m: Vec<Vec<T>> = Vec::new();
    for i in 0..dim
        invariant
            m@.len() == i,
            forall|r: int| 0 <= r < i ==> #[trigger] m@[r]@.len() == dim,
            forall|r: int, j: int|
                0 <= r < i && 0 <= j < dim ==> #[trigger] m@[r]@[j] == if r == dim - 1 && j == dim
                    - 1 {
                    sign
                } else if r == j {
                    one
                } else {
                    zero
                },
    {
        let mut row: Vec<T> = Vec::new();
        for j in 0..dim
            invariant
                row@.len() == j,
                forall|c: int|
                    0 <= c < j ==> #[trigger] row@[c] == if i == dim - 1 && c == dim - 1 {
                        sign
                    } else if i == c {
                        one
                    } else {
                        zero
                    },
        {
            if i == dim - 1 && j == dim - 1 {
                row.push(sign);
            } else if i == j {
                row.push(one);
            } else {
                row.push(zero);
            }
        }
        m.push(row);
    }
    m
}

/// Assembles the homogeneous `(d + 1) × (d + 1)` transform from a `d × d` rotation and a
/// translation of length `d`: the rotation fills the upper-left block, the translation
/// the last column, and the last row is `0, .., 0, 1`.
pub fn homogeneous_transform<T: Copy>(
    rotation: &Vec<Vec<T>>,
    translation: &Vec<T>,
    zero: T,
    one: T,
) -> (m: Vec<Vec<T>>)
    requires
        has_shape(rows_of(rotation), rotation@.len(), rotation@.len()),
        translation@.len() == rotation@.len(),
        rotation@.len() < usize::MAX,
    ensures
        has_shape(rows_of(&m), rotation@.len() + 1, rotation@.len() + 1),
        forall|i: int, j: int|
            0 <= i < rotation@.len() && 0 <= j < rotation@.len() ==> #[trigger] rows_of(&m)[i][j]
                == rows_of(rotation)[i][j],
        forall|i: int|
            0 <= i < rotation@.len() ==> #[trigger] rows_of(&m)[i][rotation@.len() as int]
                == translation@[i],
        forall|j: int|
            0 <= j < rotation@.len() ==> #[trigger] rows_of(&m)[rotation@.len() as int][j] == zero,
        rows_of(&m)[rotation@.len() as int][rotation@.len() as int] == one,
{
    let d = rotation.len();
    let ghost rot = rows_of(rotation);
    let mut m: Vec<Vec<T>> = Vec::new();
    for i in 0..d
        invariant
            d == rotation@.len(),
            rot == rows_of(rotation),
            has_shape(rot, d as nat, d as nat),
            translation@.len() == d,
            d < usize::MAX,
            m@.len() == i,
            forall|r: int| 0 <= r < i ==> #[trigger] m@[r]@.len() == d + 1,
            forall|r: int, j: int| 0 <= r < i && 0 <= j < d ==> #[trigger] m@[r]@[j] == rot[r][j],
            forall|r: int| 0 <= r < i ==> #[trigger] m@[r]@[d as int] == translation@[r],
    {
        let mut row: Vec<T> = Vec::new();
        assert(rot[i as int] == rotation@[i as int]@);
        for j in 0..d
            invariant
                d == rotation@.len(),
                rot == rows_of(rotation),
                has_shape(rot, d as nat, d as nat),
                0 <= i < d,
                row@.len() == j,
                forall|c: int| 0 <= c < j ==> #[trigger] row@[c] == rot[i as int][c],
        {
            assert(rot[i as int] == rotation@[i as int]@);
            row.push(rotation[i][j]);
        }
        row.push(translation[i]);
        m.push(row);
    }
    let mut last: Vec<T> = Vec::new();
    for j in 0..d
        invariant
            last@.len() == j,
            forall|c: int| 0 <= c < j ==> #[trigger] last@[c] == zero,
    {
        last.push(zero);
    }
    last.push(one);
    m.push(last);
    m
}

} // verus!
