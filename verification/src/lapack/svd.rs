//! The arguments of a singular value decomposition by LAPACK's `gesvd`.
//!
//! `gesvd` factors an `m` by `n` column-major matrix as `U * S * V^T`. The
//! caller says how much of `U` and `V^T` it wants, and has to hand over
//! buffers of the matching sizes together with their leading dimensions.
//! This module works out those sizes; the call itself is made by whoever
//! holds the floating-point data.

use vstd::prelude::*;

verus! {

/// How much of a factor to compute.
#[derive(Clone, Copy, Debug, PartialEq, Eq, Structural)]
pub enum Mode {
    /// The full square factor.
    All,
    /// Only the first `min(m, n)` columns of `U`, or rows of `V^T`.
    Slim,
    /// Nothing.
    Skip,
}

/// Why a decomposition was not computed.
#[derive(Clone, Copy, Debug, PartialEq, Eq, Structural)]
pub enum SvdError {
    /// The matrix has no elements, or an extent does not fit the integers
    /// that LAPACK takes.
    UnsupportedShape,
    /// LAPACK reported this nonzero status.
    LapackError(i32),
}

/// What to hand to `gesvd` for one decomposition.
#[derive(Clone, Copy, Debug, PartialEq, Eq)]
pub struct SvdArguments {
    /// `b'A'`, `b'S'` or `b'N'`: how much of `U` to compute.
    pub jobu: u8,
    /// `b'A'`, `b'S'` or `b'N'`: how much of `V^T` to compute.
    pub jobvt: u8,
    /// The number of rows.
    pub m: i32,
    /// The number of columns.
    pub n: i32,
    /// The leading dimension of the matrix.
    pub lda: i32,
    /// The leading dimension of `U`.
    pub ldu: i32,
    /// The leading dimension of `V^T`.
    pub ldvt: i32,
    /// The number of singular values: `min(m, n)`.
    pub singular_values: usize,
    /// The length of the work array: one less than the number of singular
    /// values.
    pub superb: usize,
    /// The shape of `U`, if it is computed.
    pub u_shape: Option<(usize, usize)>,
    /// The shape of `V^T`, if it is computed.
    pub vt_shape: Option<(usize, usize)>,
}

/// The letter by which `gesvd` is told a mode.
pub open spec fn job_letter(mode: Mode) -> u8 {
    match mode {
        Mode::All => 65u8,
        Mode::Slim => 83u8,
        Mode::Skip => 78u8,
    }
}

/// The smaller of two extents.
pub open spec fn smaller(m: int, n: int) -> int {
    if m <= n {
        m
    } else {
        n
    }
}

/// Whether `gesvd` can be called on a matrix of this shape and column
/// stride: it has elements, and the extents and the stride fit an `i32`.
pub open spec fn svd_supported(shape: (usize, usize), stride: (usize, usize)) -> bool {
    &&& 1 <= shape.0 <= i32::MAX
    &&& 1 <= shape.1 <= i32::MAX
    &&& stride.1 <= i32::MAX
}

/// The arguments for a matrix of shape `shape` whose columns lie `stride.1`
/// elements apart.
pub open spec fn arguments_for(
    shape: (usize, usize),
    stride: (usize, usize),
    u_mode: Mode,
    vt_mode: Mode,
) -> SvdArguments {
    let m = shape.0 as int;
    let n = shape.1 as int;
    let k = smaller(m, n);
    SvdArguments {
        jobu: job_letter(u_mode),
        jobvt: job_letter(vt_mode),
        m: m as i32,
        n: n as i32,
        lda: stride.1 as i32,
        ldu: m as i32,
        ldvt: match vt_mode {
            Mode::All => n as i32,
            _ => k as i32,
        },
        singular_values: k as usize,
        superb: (k - 1) as usize,
        u_shape: match u_mode {
            Mode::All => Some((m as usize, m as usize)),
            Mode::Slim => Some((m as usize, k as usize)),
            Mode::Skip => None,
        },
        vt_shape: match vt_mode {
            Mode::All => Some((n as usize, n as usize)),
            Mode::Slim => Some((k as usize, n as usize)),
            Mode::Skip => None,
        },
    }
}

/// An extent as LAPACK takes it, if it fits.
fn to_lapack_int(v: usize) -> (r: Option<i32>)
    ensures
        r.is_some() <==> v <= i32::MAX,
        r.is_some() ==> r.unwrap() == v,
{
    if v <= 0x7fff_ffff {
        Some(v as i32)
    } else {
        None
    }
}

/// Works out what to hand to `gesvd` to decompose a matrix of shape `shape`
/// whose columns lie `stride.1` elements apart. Fails with
/// `UnsupportedShape` on a matrix without elements and on extents that
/// LAPACK cannot take.
pub fn svd_arguments(shape: (usize, usize), stride: (usize, usize), u_mode: Mode, vt_mode: Mode) -> (r:
    Result<SvdArguments, SvdError>)
    ensures
        r == if svd_supported(shape, stride) {
            Ok::<SvdArguments, SvdError>(arguments_for(shape, stride, u_mode, vt_mode))
        } else {
            Err::<SvdArguments, SvdError>(SvdError::UnsupportedShape)
        },
{
    if shape.0 == 0 || shape.1 == 0 {
        return Err(SvdError::UnsupportedShape);
    }
    let (m, n, lda) = match (to_lapack_int(shape.0), to_lapack_int(shape.1), to_lapack_int(stride.1)) {
        (Some(m), Some(n), Some(lda)) => (m, n, lda),
        _ => {
            return Err(SvdError::UnsupportedShape);
        },
    };
    let k: usize = if shape.0 <= shape.1 {
        shape.0
    } else {
        shape.1
    };
    let k_int: i32 = if m <= n {
        m
    } else {
        n
    };
    let jobu: u8;
    let u_shape: Option<(usize, usize)>;
    match u_mode {
        Mode::All => {
            jobu = 65u8;
            u_shape = Some((shape.0, shape.0));
        },
        Mode::Slim => {
            jobu = 83u8;
            u_shape = Some((shape.0, k));
        },
        Mode::Skip => {
            jobu = 78u8;
            u_shape = None;
        },
    }
    let jobvt: u8;
    let vt_shape: Option<(usize, usize)>;
    let ldvt: i32;
    match vt_mode {
        Mode::All => {
            jobvt = 65u8;
            vt_shape = Some((shape.1, shape.1));
            ldvt = n;
        },
        Mode::Slim => {
            jobvt = 83u8;
            vt_shape = Some((k, shape.1));
            ldvt = k_int;
        },
        Mode::Skip => {
            jobvt = 78u8;
            vt_shape = None;
            ldvt = k_int;
        },
    }
    Ok(
        SvdArguments {
            jobu,
            jobvt,
            m,
            n,
            lda,
            ldu: m,
            ldvt,
            singular_values: k,
            superb: k - 1,
            u_shape,
            vt_shape,
        },
    )
}

/// What the status that `gesvd` returned means: zero is success, anything
/// else is reported as it is.
pub fn svd_status(info: i32) -> (r: Result<(), SvdError>)
    ensures
        r == if info == 0 {
            Ok::<(), SvdError>(())
        } else {
            Err::<(), SvdError>(SvdError::LapackError(info))
        },
{
    if info == 0 {
        Ok(())
    } else {
        Err(SvdError::LapackError(info))
    }
}

} // verus!
