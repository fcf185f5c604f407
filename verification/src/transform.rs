//! Local transform components: translation, rotation, scale, and the derived
//! world-space matrix.
//!
//! The local matrix of a transform is always
//! `translate(translation) * rotate(rotation) * scale(scale)`, recomputed on
//! demand from the three source fields; only the world-space matrix is ever
//! cached, and only the tick writes it.

use vstd::prelude::*;
use crate::math::{Mat4, entry_in_range, mat_in_range, mat_mul, identity_spec, mat_identity,
    mat_mul_checked};

verus! {

/// A local transform plus the cached world-space matrix.
///
/// The rotation is a 3x3 integer matrix in row-major order (`r00` .. `r22`);
/// any 3x3 matrix within the entry bound is accepted.
#[derive(Clone, Copy, Debug, PartialEq, Eq, Structural)]
pub struct Transform {
    pub tx: i64, pub ty: i64, pub tz: i64,
    pub r00: i64, pub r01: i64, pub r02: i64,
    pub r10: i64, pub r11: i64, pub r12: i64,
    pub r20: i64, pub r21: i64, pub r22: i64,
    pub sx: i64, pub sy: i64, pub sz: i64,
    pub global_matrix: Mat4,
}

/// The homogeneous translation matrix of a transform, as a value.
pub open spec fn translation_spec(t: Transform) -> Seq<int> {
    Seq::new(16, |k: int|
        if k == 3 { t.tx as int } else if k == 7 { t.ty as int }
        else if k == 11 { t.tz as int } else if k % 5 == 0 { 1int } else { 0int })
}

/// The homogeneous rotation matrix of a transform, as a value.
pub open spec fn rotation_spec(t: Transform) -> Seq<int> {
    Seq::new(16, |k: int|
        if k == 0 { t.r00 as int } else if k == 1 { t.r01 as int } else if k == 2 { t.r02 as int }
        else if k == 4 { t.r10 as int } else if k == 5 { t.r11 as int } else if k == 6 { t.r12 as int }
        else if k == 8 { t.r20 as int } else if k == 9 { t.r21 as int } else if k == 10 { t.r22 as int }
        else if k == 15 { 1int } else { 0int })
}

/// The homogeneous scaling matrix of a transform, as a value.
pub open spec fn scaling_spec(t: Transform) -> Seq<int> {
    Seq::new(16, |k: int|
        if k == 0 { t.sx as int } else if k == 5 { t.sy as int }
        else if k == 10 { t.sz as int } else if k == 15 { 1int } else { 0int })
}

/// The local matrix: translation, then rotation, then scale.
pub open spec fn local_mat(t: Transform) -> Seq<int> {
    mat_mul(mat_mul(translation_spec(t), rotation_spec(t)), scaling_spec(t))
}

/// Both composition steps of the local matrix stay within the entry bound.
pub open spec fn local_fits(t: Transform) -> bool {
    mat_in_range(mat_mul(translation_spec(t), rotation_spec(t))) && mat_in_range(local_mat(t))
}

impl Transform {
    /// All source components and the cached matrix are within the entry bound.
    pub open spec fn wf(&self) -> bool {
        &&& entry_in_range(self.tx as int) && entry_in_range(self.ty as int)
        &&& entry_in_range(self.tz as int)
        &&& entry_in_range(self.r00 as int) && entry_in_range(self.r01 as int)
        &&& entry_in_range(self.r02 as int)
        &&& entry_in_range(self.r10 as int) && entry_in_range(self.r11 as int)
        &&& entry_in_range(self.r12 as int)
        &&& entry_in_range(self.r20 as int) && entry_in_range(self.r21 as int)
        &&& entry_in_range(self.r22 as int)
        &&& entry_in_range(self.sx as int) && entry_in_range(self.sy as int)
        &&& entry_in_range(self.sz as int)
        &&& self.global_matrix.wf()
    }

    /// True of the identity transform with an identity cached matrix.
    pub open spec fn is_default(&self) -> bool {
        &&& self.tx == 0 && self.ty == 0 && self.tz == 0
        &&& self.r00 == 1 && self.r01 == 0 && self.r02 == 0
        &&& self.r10 == 0 && self.r11 == 1 && self.r12 == 0
        &&& self.r20 == 0 && self.r21 == 0 && self.r22 == 1
        &&& self.sx == 1 && self.sy == 1 && self.sz == 1
        &&& self.global_matrix@ == identity_spec()
    }

    pub fn set_translation_xyz(&mut self, x: i64, y: i64, z: i64)
        requires
            entry_in_range(x as int), entry_in_range(y as int), entry_in_range(z as int),
        ensures
            *final(self) == (Transform { tx: x, ty: y, tz: z, ..*old(self) }),
    {
        self.tx = x;
        self.ty = y;
        self.tz = z;
    }

    /// Replace the rotation with the given row-major 3x3 matrix.
    pub fn set_rotation(&mut self, r: [i64; 9])
        requires
            forall|k: int| 0 <= k < 9 ==> entry_in_range(r@[k] as int),
        ensures
            *final(self) == (Transform {
                r00: r@[0], r01: r@[1], r02: r@[2],
                r10: r@[3], r11: r@[4], r12: r@[5],
                r20: r@[6], r21: r@[7], r22: r@[8],
                ..*old(self)
            }),
    {
        self.r00 = r[0]; self.r01 = r[1]; self.r02 = r[2];
        self.r10 = r[3]; self.r11 = r[4]; self.r12 = r[5];
        self.r20 = r[6]; self.r21 = r[7]; self.r22 = r[8];
    }

    pub fn set_scale(&mut self, x: i64, y: i64, z: i64)
        requires
            entry_in_range(x as int), entry_in_range(y as int), entry_in_range(z as int),
        ensures
            *final(self) == (Transform { sx: x, sy: y, sz: z, ..*old(self) }),
    {
        self.sx = x;
        self.sy = y;
        self.sz = z;
    }

    pub fn global_matrix(&self) -> (r: &Mat4)
        ensures
            r == self.global_matrix,
    {
        &self.global_matrix
    }

    /// The local matrix, recomputed from translation, rotation and scale.
    /// `None` exactly when a composition step leaves the entry bound.
    pub fn matrix(&self) -> (r: Option<Mat4>)
        requires
            self.wf(),
        ensures
            local_fits(*self) <==> r is Some,
            r matches Some(m) ==> m@ == local_mat(*self) && m.wf(),
    {
        let t = Mat4 {
            m00: 1, m01: 0, m02: 0, m03: self.tx,
            m10: 0, m11: 1, m12: 0, m13: self.ty,
            m20: 0, m21: 0, m22: 1, m23: self.tz,
            m30: 0, m31: 0, m32: 0, m33: 1,
        };
        let r = Mat4 {
            m00: self.r00, m01: self.r01, m02: self.r02, m03: 0,
            m10: self.r10, m11: self.r11, m12: self.r12, m13: 0,
            m20: self.r20, m21: self.r21, m22: self.r22, m23: 0,
            m30: 0, m31: 0, m32: 0, m33: 1,
        };
        let s = Mat4 {
            m00: self.sx, m01: 0, m02: 0, m03: 0,
            m10: 0, m11: self.sy, m12: 0, m13: 0,
            m20: 0, m21: 0, m22: self.sz, m23: 0,
            m30: 0, m31: 0, m32: 0, m33: 1,
        };
        proof {
            assert(t@ =~= translation_spec(*self));
            assert(r@ =~= rotation_spec(*self));
            assert(s@ =~= scaling_spec(*self));
            assert(t.wf());
            assert(r.wf());
            assert(s.wf());
        }
        let tr = match mat_mul_checked(&t, &r) {
            Some(m) => m,
            None => { return None; }
        };
        mat_mul_checked(&tr, &s)
    }
}

impl Default for Transform {
    /// The identity transform: zero translation, identity rotation, unit
    /// scale, identity cached world matrix.
    fn default() -> (r: Self)
        ensures
            r.is_default(),
            r.wf(),
            local_fits(r),
            local_mat(r) == identity_spec(),
    {
        let g = mat_identity();
        let r = Transform {
            tx: 0, ty: 0, tz: 0,
            r00: 1, r01: 0, r02: 0,
            r10: 0, r11: 1, r12: 0,
            r20: 0, r21: 0, r22: 1,
            sx: 1, sy: 1, sz: 1,
            global_matrix: g,
        };
        proof {
            lemma_default_local(r);
        }
        r
    }
}

/// For the identity transform the local matrix is the identity matrix, and
/// both composition steps fit.
proof fn lemma_default_local(t: Transform)
    requires
        t.tx == 0 && t.ty == 0 && t.tz == 0,
        t.r00 == 1 && t.r01 == 0 && t.r02 == 0,
        t.r10 == 0 && t.r11 == 1 && t.r12 == 0,
        t.r20 == 0 && t.r21 == 0 && t.r22 == 1,
        t.sx == 1 && t.sy == 1 && t.sz == 1,
    ensures
        local_fits(t),
        local_mat(t) == identity_spec(),
{
    assert(mat_mul(translation_spec(t), rotation_spec(t)) =~= identity_spec());
    assert(mat_mul(identity_spec(), scaling_spec(t)) =~= identity_spec());
    assert(mat_in_range(identity_spec()));
}

} // verus!
