use vstd::prelude::*;
use crate::error::TSPError;
use crate::solver::{is_nonnegative, is_square, MAX_CITIES};

verus! {

/// Every distance from a city to itself is zero.
pub open spec fn has_zero_diagonal(d: Seq<Vec<i64>>) -> bool {
    forall|i: int| 0 <= i < d.len() && i < d[i]@.len() ==> (#[trigger] d[i])@[i] == 0
}

/// What the solver needs of the cities and their distance matrix.
pub open spec fn is_valid_input(n: nat, d: Seq<Vec<i64>>) -> bool {
    &&& 2 <= n <= MAX_CITIES
    &&& d.len() == n
    &&& is_square(d)
    &&& has_zero_diagonal(d)
    &&& is_nonnegative(d)
}

/// Position of the first negative entry of `row` at or after `j`.
pub open spec fn first_negative(row: Seq<i64>, j: int) -> Option<int>
    decreases row.len() - j,
{
    if j < 0 || j >= row.len() {
        None
    } else if row[j] < 0 {
        Some(j)
    } else {
        first_negative(row, j + 1)
    }
}

/// The fault of row `i` of an `n`-city matrix, if any: its length, then its
/// diagonal entry, then its first negative entry.
pub open spec fn row_fault(d: Seq<Vec<i64>>, n: nat, i: int) -> Option<TSPError> {
    if d[i]@.len() != n {
        Some(
            TSPError::DimensionMismatch {
                in_row: Some((i + 1) as usize),
                found: d[i]@.len() as usize,
                expected: n as usize,
            },
        )
    } else if d[i]@[i] != 0 {
        Some(TSPError::NonZeroDiagonal { city: i as usize })
    } else {
        match first_negative(d[i]@, 0) {
            Some(j) => Some(TSPError::NegativeDistance { from: i as usize, to: j as usize }),
            None => None,
        }
    }
}

/// The fault of the first faulty row from row `i` on.
pub open spec fn rows_fault(d: Seq<Vec<i64>>, n: nat, i: int) -> Option<TSPError>
    decreases n - i,
{
    if i < 0 || i >= n {
        None
    } else {
        match row_fault(d, n, i) {
            Some(e) => Some(e),
            None => rows_fault(d, n, i + 1),
        }
    }
}

/// What checking `n` city names and the matrix `d` gives.
pub open spec fn validation(n: nat, d: Seq<Vec<i64>>) -> Result<(), TSPError> {
    if n < 2 {
        Err(TSPError::TooFewCities { count: n as usize })
    } else if n > MAX_CITIES {
        Err(TSPError::TooManyCities { count: n as usize })
    } else if d.len() != n {
        Err(
            TSPError::DimensionMismatch {
                in_row: None,
                found: d.len() as usize,
                expected: n as usize,
            },
        )
    } else {
        match rows_fault(d, n, 0) {
            Some(e) => Err(e),
            None => Ok(()),
        }
    }
}

/// Checks the parsed input before solving. The city count is checked first,
/// then the number of rows, then each row in order: its length, its
/// diagonal entry, and then its entries from left to right.
pub fn validate_input(cities: &Vec<String>, matrix: &Vec<Vec<i64>>) -> (r: Result<(), TSPError>)
    ensures
        r == validation(cities.len() as nat, matrix@),
        r is Ok <==> is_valid_input(cities.len() as nat, matrix@),
{
    let n = cities.len();
    if n < 2 {
        return Err(TSPError::TooFewCities { count: n });
    }
    if n > MAX_CITIES {
        return Err(TSPError::TooManyCities { count: n });
    }
    if matrix.len() != n {
        return Err(TSPError::DimensionMismatch { in_row: None, found: matrix.len(), expected: n });
    }
    let mut i: usize = 0;
    while i < n
        invariant
            n == cities.len(),
            2 <= n <= MAX_CITIES,
            matrix.len() == n,
            i <= n,
            forall|k: int| 0 <= k < i ==> (#[trigger] matrix@[k])@.len() == n,
            forall|k: int| 0 <= k < i ==> (#[trigger] matrix@[k])@[k] == 0,
            forall|k: int, j: int|
                0 <= k < i && 0 <= j < n ==> 0 <= #[trigger] matrix@[k]@[j],
            rows_fault(matrix@, n as nat, 0) == rows_fault(matrix@, n as nat, i as int),
        decreases n - i,
    {
        let row = &matrix[i];
        if row.len() != n {
            assert(!is_square(matrix@));
            return Err(TSPError::DimensionMismatch { in_row: Some(i + 1), found: row.len(), expected: n });
        }
        if row[i] != 0 {
            assert(!has_zero_diagonal(matrix@));
            return Err(TSPError::NonZeroDiagonal { city: i });
        }
        let mut j: usize = 0;
        while j < n
            invariant
                n == cities.len(),
                2 <= n <= MAX_CITIES,
                i < n,
                matrix.len() == n,
                row@ == matrix@[i as int]@,
                row@.len() == n,
                j <= n,
                forall|l: int| 0 <= l < j ==> 0 <= #[trigger] row@[l],
                first_negative(row@, 0) == first_negative(row@, j as int),
                row@[i as int] == 0,
                rows_fault(matrix@, n as nat, 0) == rows_fault(matrix@, n as nat, i as int),
            decreases n - j,
        {
            if row[j] < 0 {
                assert(!is_nonnegative(matrix@));
                assert(first_negative(row@, j as int) == Some(j as int));
                assert(row_fault(matrix@, n as nat, i as int) == Some(
                    TSPError::NegativeDistance { from: i, to: j },
                ));
                return Err(TSPError::NegativeDistance { from: i, to: j });
            }
            j += 1;
        }
        assert(first_negative(row@, 0) is None);
        assert(row_fault(matrix@, n as nat, i as int) is None);
        i += 1;
    }
    Ok(())
}

} // verus!
