//! Exact 4x4 integer matrix arithmetic.
//!
//! Transform composition is modelled over the integers: every matrix entry is
//! an `i64` kept within `MAX_ENTRY` in magnitude, so that one composition step
//! can be computed exactly in `i128` intermediate arithmetic. A composition
//! whose true result would leave that range is reported instead of being
//! silently truncated.

use vstd::prelude::*;

verus! {

/// Largest magnitude an entry of a well-formed matrix may have (2^62).
pub const MAX_ENTRY: i64 = 0x4000_0000_0000_0000;

/// The mathematical entry bound.
pub open spec fn entry_in_range(x: int) -> bool {
    -(MAX_ENTRY as int) <= x && x <= MAX_ENTRY as int
}

/// All sixteen entries of a matrix (in row-major order) are within bounds.
pub open spec fn mat_in_range(s: Seq<int>) -> bool {
    forall|k: int| 0 <= k < 16 ==> entry_in_range(#[trigger] s[k])
}

/// Entry (i, j) of the product of two row-major 4x4 matrices.
pub open spec fn product_entry(a: Seq<int>, b: Seq<int>, i: int, j: int) -> int {
    a[4 * i] * b[j] + a[4 * i + 1] * b[4 + j] + a[4 * i + 2] * b[8 + j] + a[4 * i + 3] * b[12 + j]
}

/// The exact mathematical product of two row-major 4x4 matrices.
pub open spec fn mat_mul(a: Seq<int>, b: Seq<int>) -> Seq<int> {
    Seq::new(16, |k: int| product_entry(a, b, k / 4, k % 4))
}

/// Row-major 4x4 matrix with bounded integer entries.
#[derive(Clone, Copy, Debug, PartialEq, Eq, Structural)]
pub struct Mat4 {
    pub m00: i64, pub m01: i64, pub m02: i64, pub m03: i64,
    pub m10: i64, pub m11: i64, pub m12: i64, pub m13: i64,
    pub m20: i64, pub m21: i64, pub m22: i64, pub m23: i64,
    pub m30: i64, pub m31: i64, pub m32: i64, pub m33: i64,
}

impl View for Mat4 {
    type V = Seq<int>;

    open spec fn view(&self) -> Seq<int> {
        Seq::new(16, |k: int|
            if k == 0 { self.m00 as int } else if k == 1 { self.m01 as int }
            else if k == 2 { self.m02 as int } else if k == 3 { self.m03 as int }
            else if k == 4 { self.m10 as int } else if k == 5 { self.m11 as int }
            else if k == 6 { self.m12 as int } else if k == 7 { self.m13 as int }
            else if k == 8 { self.m20 as int } else if k == 9 { self.m21 as int }
            else if k == 10 { self.m22 as int } else if k == 11 { self.m23 as int }
            else if k == 12 { self.m30 as int } else if k == 13 { self.m31 as int }
            else if k == 14 { self.m32 as int } else { self.m33 as int })
    }
}

impl Mat4 {
    /// Every entry is within `MAX_ENTRY`.
    pub open spec fn wf(&self) -> bool {
        mat_in_range(self@)
    }
}

/// The identity matrix, as a mathematical value.
pub open spec fn identity_spec() -> Seq<int> {
    Seq::new(16, |k: int| if k % 5 == 0 { 1int } else { 0int })
}

/// The identity matrix.
pub fn mat_identity() -> (r: Mat4)
    ensures
        r@ == identity_spec(),
        r.wf(),
{
    let r = Mat4 {
        m00: 1, m01: 0, m02: 0, m03: 0,
        m10: 0, m11: 1, m12: 0, m13: 0,
        m20: 0, m21: 0, m22: 1, m23: 0,
        m30: 0, m31: 0, m32: 0, m33: 1,
    };
    proof {
        assert(r@ =~= identity_spec());
    }
    r
}

/// One inner product of a matrix row with a matrix column.
pub open spec fn dot4_val(
    a0: int, a1: int, a2: int, a3: int,
    b0: int, b1: int, b2: int, b3: int,
) -> int {
    a0 * b0 + a1 * b1 + a2 * b2 + a3 * b3
}

proof fn lemma_mul_bound(x: int, y: int, m: int)
    requires
        0 <= m,
        -m <= x <= m,
        -m <= y <= m,
    ensures
        -(m * m) <= x * y <= m * m,
{
    assert(-(m * m) <= x * y <= m * m) by (nonlinear_arith)
        requires
            0 <= m,
            -m <= x <= m,
            -m <= y <= m,
    ;
}

/// Inner product of a row and a column, exact, with a range check on the
/// result so that it can serve as the entry of a well-formed matrix.
fn dot4(
    a0: i64, a1: i64, a2: i64, a3: i64,
    b0: i64, b1: i64, b2: i64, b3: i64,
) -> (r: Option<i64>)
    requires
        entry_in_range(a0 as int), entry_in_range(a1 as int),
        entry_in_range(a2 as int), entry_in_range(a3 as int),
        entry_in_range(b0 as int), entry_in_range(b1 as int),
        entry_in_range(b2 as int), entry_in_range(b3 as int),
    ensures
        entry_in_range(dot4_val(a0 as int, a1 as int, a2 as int, a3 as int,
                                b0 as int, b1 as int, b2 as int, b3 as int))
            ==> (r matches Some(v)
                && v as int == dot4_val(a0 as int, a1 as int, a2 as int, a3 as int,
                                        b0 as int, b1 as int, b2 as int, b3 as int)),
        !entry_in_range(dot4_val(a0 as int, a1 as int, a2 as int, a3 as int,
                                 b0 as int, b1 as int, b2 as int, b3 as int))
            ==> r is None,
{
    proof {
        lemma_mul_bound(a0 as int, b0 as int, MAX_ENTRY as int);
        lemma_mul_bound(a1 as int, b1 as int, MAX_ENTRY as int);
        lemma_mul_bound(a2 as int, b2 as int, MAX_ENTRY as int);
        lemma_mul_bound(a3 as int, b3 as int, MAX_ENTRY as int);
    }
    let p0: i128 = (a0 as i128) * (b0 as i128);
    let p1: i128 = (a1 as i128) * (b1 as i128);
    let p2: i128 = (a2 as i128) * (b2 as i128);
    let p3: i128 = (a3 as i128) * (b3 as i128);
    let s: i128 = p0 + p1 + p2 + p3;
    if -(MAX_ENTRY as i128) <= s && s <= MAX_ENTRY as i128 {
        Some(s as i64)
    } else {
        None
    }
}

proof fn lemma_wf_fields(m: Mat4)
    requires
        m.wf(),
    ensures
        entry_in_range(m.m00 as int), entry_in_range(m.m01 as int),
        entry_in_range(m.m02 as int), entry_in_range(m.m03 as int),
        entry_in_range(m.m10 as int), entry_in_range(m.m11 as int),
        entry_in_range(m.m12 as int), entry_in_range(m.m13 as int),
        entry_in_range(m.m20 as int), entry_in_range(m.m21 as int),
        entry_in_range(m.m22 as int), entry_in_range(m.m23 as int),
        entry_in_range(m.m30 as int), entry_in_range(m.m31 as int),
        entry_in_range(m.m32 as int), entry_in_range(m.m33 as int),
{
    assert(entry_in_range(m@[0])); assert(entry_in_range(m@[1]));
    assert(entry_in_range(m@[2])); assert(entry_in_range(m@[3]));
    assert(entry_in_range(m@[4])); assert(entry_in_range(m@[5]));
    assert(entry_in_range(m@[6])); assert(entry_in_range(m@[7]));
    assert(entry_in_range(m@[8])); assert(entry_in_range(m@[9]));
    assert(entry_in_range(m@[10])); assert(entry_in_range(m@[11]));
    assert(entry_in_range(m@[12])); assert(entry_in_range(m@[13]));
    assert(entry_in_range(m@[14])); assert(entry_in_range(m@[15]));
}

/// Exact product of two well-formed matrices. Returns the product whenever
/// every entry of the true product is within `MAX_ENTRY`, and `None` exactly
/// when some entry of the true product falls outside that range.
#[verifier::rlimit(50)]
pub fn mat_mul_checked(a: &Mat4, b: &Mat4) -> (r: Option<Mat4>)
    requires
        a.wf(),
        b.wf(),
    ensures
        mat_in_range(mat_mul(a@, b@)) ==> r is Some,
        !mat_in_range(mat_mul(a@, b@)) ==> r is None,
        r matches Some(m) ==> m@ == mat_mul(a@, b@) && m.wf(),
{
    proof {
        lemma_wf_fields(*a);
        lemma_wf_fields(*b);
    }
    let c00 = match dot4(a.m00, a.m01, a.m02, a.m03, b.m00, b.m10, b.m20, b.m30) {
        Some(v) => v,
        None => { proof { assert(!entry_in_range(mat_mul(a@, b@)[0])); } return None; }
    };
    let c01 = match dot4(a.m00, a.m01, a.m02, a.m03, b.m01, b.m11, b.m21, b.m31) {
        Some(v) => v,
        None => { proof { assert(!entry_in_range(mat_mul(a@, b@)[1])); } return None; }
    };
    let c02 = match dot4(a.m00, a.m01, a.m02, a.m03, b.m02, b.m12, b.m22, b.m32) {
        Some(v) => v,
        None => { proof { assert(!entry_in_range(mat_mul(a@, b@)[2])); } return None; }
    };
    let c03 = match dot4(a.m00, a.m01, a.m02, a.m03, b.m03, b.m13, b.m23, b.m33) {
        Some(v) => v,
        None => { proof { assert(!entry_in_range(mat_mul(a@, b@)[3])); } return None; }
    };
    let c10 = match dot4(a.m10, a.m11, a.m12, a.m13, b.m00, b.m10, b.m20, b.m30) {
        Some(v) => v,
        None => { proof { assert(!entry_in_range(mat_mul(a@, b@)[4])); } return None; }
    };
    let c11 = match dot4(a.m10, a.m11, a.m12, a.m13, b.m01, b.m11, b.m21, b.m31) {
        Some(v) => v,
        None => { proof { assert(!entry_in_range(mat_mul(a@, b@)[5])); } return None; }
    };
    let c12 = match dot4(a.m10, a.m11, a.m12, a.m13, b.m02, b.m12, b.m22, b.m32) {
        Some(v) => v,
        None => { proof { assert(!entry_in_range(mat_mul(a@, b@)[6])); } return None; }
    };
    let c13 = match dot4(a.m10, a.m11, a.m12, a.m13, b.m03, b.m13, b.m23, b.m33) {
        Some(v) => v,
        None => { proof { assert(!entry_in_range(mat_mul(a@, b@)[7])); } return None; }
    };
    let c20 = match dot4(a.m20, a.m21, a.m22, a.m23, b.m00, b.m10, b.m20, b.m30) {
        Some(v) => v,
        None => { proof { assert(!entry_in_range(mat_mul(a@, b@)[8])); } return None; }
    };
    let c21 = match dot4(a.m20, a.m21, a.m22, a.m23, b.m01, b.m11, b.m21, b.m31) {
        Some(v) => v,
        None => { proof { assert(!entry_in_range(mat_mul(a@, b@)[9])); } return None; }
    };
    let c22 = match dot4(a.m20, a.m21, a.m22, a.m23, b.m02, b.m12, b.m22, b.m32) {
        Some(v) => v,
        None => { proof { assert(!entry_in_range(mat_mul(a@, b@)[10])); } return None; }
    };
    let c23 = match dot4(a.m20, a.m21, a.m22, a.m23, b.m03, b.m13, b.m23, b.m33) {
        Some(v) => v,
        None => { proof { assert(!entry_in_range(mat_mul(a@, b@)[11])); } return None; }
    };
    let c30 = match dot4(a.m30, a.m31, a.m32, a.m33, b.m00, b.m10, b.m20, b.m30) {
        Some(v) => v,
        None => { proof { assert(!entry_in_range(mat_mul(a@, b@)[12])); } return None; }
    };
    let c31 = match dot4(a.m30, a.m31, a.m32, a.m33, b.m01, b.m11, b.m21, b.m31) {
        Some(v) => v,
        None => { proof { assert(!entry_in_range(mat_mul(a@, b@)[13])); } return None; }
    };
    let c32 = match dot4(a.m30, a.m31, a.m32, a.m33, b.m02, b.m12, b.m22, b.m32) {
        Some(v) => v,
        None => { proof { assert(!entry_in_range(mat_mul(a@, b@)[14])); } return None; }
    };
    let c33 = match dot4(a.m30, a.m31, a.m32, a.m33, b.m03, b.m13, b.m23, b.m33) {
        Some(v) => v,
        None => { proof { assert(!entry_in_range(mat_mul(a@, b@)[15])); } return None; }
    };
    let m = Mat4 {
        m00: c00, m01: c01, m02: c02, m03: c03,
        m10: c10, m11: c11, m12: c12, m13: c13,
        m20: c20, m21: c21, m22: c22, m23: c23,
        m30: c30, m31: c31, m32: c32, m33: c33,
    };
    proof {
        assert(m@ =~= mat_mul(a@, b@));
    }
    Some(m)
}

} // verus!
