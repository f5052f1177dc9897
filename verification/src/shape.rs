//! Shape validation: the byte lengths that a logical shape implies.

use vstd::prelude::*;
use crate::error::GemmError;

verus! {

/// Bytes that a row-major `rows` by `cols` matrix of halves occupies.
pub open spec fn operand_bytes(rows: int, cols: int) -> int {
    rows * cols * 2
}

/// Whether buffers of `a_len` and `b_len` bytes hold an `m` by `k` and a
/// `k` by `n` matrix of halves.
pub open spec fn shape_matches(a_len: int, b_len: int, m: int, n: int, k: int) -> bool {
    a_len == operand_bytes(m, k) && b_len == operand_bytes(k, n)
}

/// Whether the byte length of an `m` by `n` result fits the size type.
pub open spec fn result_fits(m: int, n: int) -> bool {
    operand_bytes(m, n) <= usize::MAX
}

/// The byte length of a `rows` by `cols` operand, or `None` where it is not
/// representable.
pub fn expected_len(rows: usize, cols: usize) -> (len: Option<usize>)
    ensures
        operand_bytes(rows as int, cols as int) <= usize::MAX ==> len == Some(
            operand_bytes(rows as int, cols as int) as usize,
        ),
        operand_bytes(rows as int, cols as int) > usize::MAX ==> len is None,
{
    match rows.checked_mul(cols) {
        Some(cells) => {
            assert(cells * 2 == operand_bytes(rows as int, cols as int));
            cells.checked_mul(2)
        },
        None => {
            assert(rows * cols * 2 >= rows * cols) by (nonlinear_arith);
            None
        },
    }
}

/// Holds the supplied lengths against the declared shape. An expected length
/// that is not representable matches no buffer.
pub fn check_shape(a_len: usize, b_len: usize, m: usize, n: usize, k: usize) -> (r: Result<
    (),
    GemmError,
>)
    ensures
        r is Ok <==> shape_matches(a_len as int, b_len as int, m as int, n as int, k as int),
        r matches Err(e) ==> e is BadArgument,
{
    let matches_a = match expected_len(m, k) {
        Some(len) => a_len == len,
        None => false,
    };
    let matches_b = match expected_len(k, n) {
        Some(len) => b_len == len,
        None => false,
    };
    if matches_a && matches_b {
        Ok(())
    } else {
        Err(GemmError::BadArgument)
    }
}

/// The number of cells of an `m` by `n` result together with its byte length,
/// as long as the byte length fits the size type.
pub fn output_len(m: usize, n: usize) -> (r: Result<(usize, usize), GemmError>)
    ensures
        r is Ok <==> result_fits(m as int, n as int),
        r matches Ok((cells, len)) ==> cells == m * n && len == operand_bytes(m as int, n as int),
        r matches Err(e) ==> e is Overflow,
{
    match m.checked_mul(n) {
        Some(cells) => {
            assert(cells * 2 == operand_bytes(m as int, n as int));
            match cells.checked_mul(2) {
                Some(len) => Ok((cells, len)),
                None => Err(GemmError::Overflow),
            }
        },
        None => {
            assert(m * n * 2 >= m * n) by (nonlinear_arith);
            Err(GemmError::Overflow)
        },
    }
}

} // verus!
