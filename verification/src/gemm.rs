//! The whole multiplication: validate, decode, widen, multiply, narrow,
//! encode.

use vstd::prelude::*;
use crate::codec::{bytes_of, halves_of, read_fp16_le_slice, write_fp16_le_slice};
use crate::convert::{accepts_each, convert_each, maps_each};
use crate::engine::{accepts_all, multiply, product_outcome};
use crate::error::GemmError;
use crate::shape::{check_shape, operand_bytes, output_len, result_fits, shape_matches};

verus! {

/// Whether the intermediate values `av`, `bv`, `cv` and `ch` lead from the
/// operand buffers to `out`: the halves of each operand widened one by one,
/// their product accumulated in single precision, each cell narrowed, and
/// the halves packed.
pub open spec fn stages<W: Fn(u16) -> u32, S: Fn(u32, u32, u32) -> u32, N: Fn(u32) -> u16>(
    widen: W,
    step: S,
    narrow: N,
    a: Seq<u8>,
    b: Seq<u8>,
    m: int,
    n: int,
    k: int,
    av: Seq<u32>,
    bv: Seq<u32>,
    cv: Seq<u32>,
    ch: Seq<u16>,
    out: Seq<u8>,
) -> bool {
    &&& maps_each(widen, halves_of(a), av)
    &&& maps_each(widen, halves_of(b), bv)
    &&& product_outcome(step, av, bv, m, n, k, cv)
    &&& maps_each(narrow, cv, ch)
    &&& out == bytes_of(ch)
}

/// Whether `out` can be the packed product of the `m` by `k` matrix packed in
/// `a` and the `k` by `n` matrix packed in `b` under the given arithmetic.
pub open spec fn gemm_outcome<W: Fn(u16) -> u32, S: Fn(u32, u32, u32) -> u32, N: Fn(u32) -> u16>(
    widen: W,
    step: S,
    narrow: N,
    a: Seq<u8>,
    b: Seq<u8>,
    m: int,
    n: int,
    k: int,
    out: Seq<u8>,
) -> bool {
    exists|av: Seq<u32>, bv: Seq<u32>, cv: Seq<u32>, ch: Seq<u16>| #[trigger]
        stages(widen, step, narrow, a, b, m, n, k, av, bv, cv, ch, out)
}

/// Whether buffers `a` and `b` are as long as the shape says.
pub open spec fn operands_fit(a: Seq<u8>, b: Seq<u8>, m: usize, n: usize, k: usize) -> bool {
    shape_matches(a.len() as int, b.len() as int, m as int, n as int, k as int)
}

/// The three buffers whose size grows with the result: the single-precision
/// sums, their halves, and the packed bytes. All three are empty until a
/// multiplication fills them.
pub struct Scratch {
    sums: Vec<u32>,
    halves: Vec<u16>,
    bytes: Vec<u8>,
}

impl Scratch {
    /// Whether nothing has been written to the buffers yet.
    pub closed spec fn is_fresh(&self) -> bool {
        self.sums@.len() == 0 && self.halves@.len() == 0 && self.bytes@.len() == 0
    }

    /// Buffers without any memory set aside.
    pub fn new() -> (s: Scratch)
        ensures
            s.is_fresh(),
    {
        Scratch { sums: Vec::new(), halves: Vec::new(), bytes: Vec::new() }
    }

    /// Buffers with memory set aside for a result of `cells` cells and `len`
    /// bytes, or `None` where the allocator refuses one that is asked of it.
    pub fn reserve(cells: usize, len: usize) -> (r: Option<Scratch>)
        ensures
            r matches Some(s) ==> s.is_fresh(),
            cells == 0 && len == 0 ==> r is Some,
    {
        let mut s = Scratch::new();
        if cells > 0 {
            if s.sums.try_reserve(cells).is_err() {
                return None;
            }
            if s.halves.try_reserve(cells).is_err() {
                return None;
            }
        }
        if len > 0 {
            if s.bytes.try_reserve(len).is_err() {
                return None;
            }
        }
        Some(s)
    }
}

/// Multiplies the `m` by `k` matrix packed in `a` by the `k` by `n` matrix
/// packed in `b`, building the result in the given buffers.
///
/// `widen` takes a half to single precision, `step` adds the product of its
/// last two arguments to its first, and `narrow` takes a single back to a
/// half. The lengths of `a` and `b` are held against the shape first, then
/// the size of the result against the size type; nothing is decoded before
/// both hold. With these buffers the call succeeds whenever both hold.
pub fn gemm_with_scratch<W, S, N>(
    scratch: Scratch,
    a: &[u8],
    b: &[u8],
    m: usize,
    n: usize,
    k: usize,
    widen: W,
    step: S,
    narrow: N,
) -> (r: Result<Vec<u8>, GemmError>) where
    W: Fn(u16) -> u32,
    S: Fn(u32, u32, u32) -> u32 + Sync,
    N: Fn(u32) -> u16,

    requires
        scratch.is_fresh(),
        accepts_each(widen),
        accepts_all(step),
        accepts_each(narrow),
    ensures
        (match r {
            Ok(out) => {
                &&& operands_fit(a@, b@, m, n, k)
                &&& result_fits(m as int, n as int)
                &&& out@.len() == operand_bytes(m as int, n as int)
                &&& gemm_outcome(widen, step, narrow, a@, b@, m as int, n as int, k as int, out@)
            },
            Err(GemmError::BadArgument) => !operands_fit(a@, b@, m, n, k),
            Err(GemmError::Overflow) => operands_fit(a@, b@, m, n, k) && !result_fits(
                m as int,
                n as int,
            ),
            Err(GemmError::AllocationFailed) => false,
            Err(GemmError::Other(_)) => false,
        }),
        operands_fit(a@, b@, m, n, k) && result_fits(m as int, n as int) ==> r is Ok,
{
    match check_shape(a.len(), b.len(), m, n, k) {
        Err(e) => {
            return Err(e);
        },
        Ok(()) => {},
    }
    let len: usize = match output_len(m, n) {
        Err(e) => {
            return Err(e);
        },
        Ok((_, len)) => len,
    };
    let a_half: Vec<u16> = read_fp16_le_slice(a);
    let b_half: Vec<u16> = read_fp16_le_slice(b);
    let a_vals: Vec<u32> = convert_each(Vec::new(), a_half.as_slice(), &widen);
    let b_vals: Vec<u32> = convert_each(Vec::new(), b_half.as_slice(), &widen);
    let Scratch { sums, halves, bytes } = scratch;
    let c_vals: Vec<u32> = multiply(sums, a_vals.as_slice(), b_vals.as_slice(), m, n, k, &step);
    let c_half: Vec<u16> = convert_each(halves, c_vals.as_slice(), &narrow);
    let mut out: Vec<u8> = bytes;
    out.resize(len, 0);
    write_fp16_le_slice(out.as_mut_slice(), c_half.as_slice());
    proof {
        assert(out@.take(len as int) == out@);
        assert(stages(
            widen,
            step,
            narrow,
            a@,
            b@,
            m as int,
            n as int,
            k as int,
            a_vals@,
            b_vals@,
            c_vals@,
            c_half@,
            out@,
        ));
    }
    Ok(out)
}

/// Multiplies the `m` by `k` matrix packed in `a` by the `k` by `n` matrix
/// packed in `b`, both as little-endian halves in row-major order, and packs
/// the `m` by `n` result the same way.
///
/// The lengths of `a` and `b` are held against the shape, then the size of
/// the result against the size type, and only then is memory for the result
/// asked for. An empty result needs none, so it never fails for want of it.
pub fn gemm_fp16_acc32<W, S, N>(
    a: &[u8],
    b: &[u8],
    m: usize,
    n: usize,
    k: usize,
    widen: W,
    step: S,
    narrow: N,
) -> (r: Result<Vec<u8>, GemmError>) where
    W: Fn(u16) -> u32,
    S: Fn(u32, u32, u32) -> u32 + Sync,
    N: Fn(u32) -> u16,

    requires
        accepts_each(widen),
        accepts_all(step),
        accepts_each(narrow),
    ensures
        (match r {
            Ok(out) => {
                &&& operands_fit(a@, b@, m, n, k)
                &&& result_fits(m as int, n as int)
                &&& out@.len() == operand_bytes(m as int, n as int)
                &&& gemm_outcome(widen, step, narrow, a@, b@, m as int, n as int, k as int, out@)
            },
            Err(GemmError::BadArgument) => !operands_fit(a@, b@, m, n, k),
            Err(GemmError::Overflow) => operands_fit(a@, b@, m, n, k) && !result_fits(
                m as int,
                n as int,
            ),
            Err(GemmError::AllocationFailed) => {
                &&& operands_fit(a@, b@, m, n, k)
                &&& result_fits(m as int, n as int)
                &&& m * n > 0
            },
            Err(GemmError::Other(_)) => false,
        }),
        operands_fit(a@, b@, m, n, k) && m * n == 0 ==> r is Ok,
{
    match check_shape(a.len(), b.len(), m, n, k) {
        Err(e) => {
            return Err(e);
        },
        Ok(()) => {},
    }
    let (cells, len) = match output_len(m, n) {
        Err(e) => {
            return Err(e);
        },
        Ok(sizes) => sizes,
    };
    let scratch = if cells == 0 {
        Scratch::new()
    } else {
        match Scratch::reserve(cells, len) {
            None => {
                return Err(GemmError::AllocationFailed);
            },
            Some(s) => s,
        }
    };
    gemm_with_scratch(scratch, a, b, m, n, k, widen, step, narrow)
}

} // verus!
