//! What holds of transforms.
use crate::affine::{transform_point, PaintTransform};
use crate::binary32::Binary32;
use crate::consts::{ONE, ZERO};
use crate::order::{
    lemma_add_value, lemma_mul_one, lemma_plus_nothing, lemma_rounded_exact, lemma_same_size,
    lemma_values, lemma_zero_product, products_commute, sums_commute,
};
use vstd::prelude::*;

verus! {

/// The identity leaves every point where it is.
pub proof fn identity_keeps_points(x: Binary32, y: Binary32)
    requires
        x.finite(),
        y.finite(),
    ensures
        transform_point(&PaintTransform::identity(), x, y).0.equals(x),
        transform_point(&PaintTransform::identity(), x, y).1.equals(y),
{
    lemma_kept(x, y);
    lemma_values();
    lemma_mul_one(x);
    lemma_mul_one(y);
    lemma_kept_behind(y, x);
}

/// A number and nothing of another are the number.
proof fn lemma_kept(x: Binary32, y: Binary32)
    requires
        x.finite(),
        y.finite(),
    ensures
        x.add(Binary32(ZERO).mul(y)).add(Binary32(ZERO)).equals(x),
{
    lemma_values();
    lemma_zero_product(Binary32(ZERO), y);
    lemma_plus_nothing(x, Binary32(ZERO).mul(y));
    lemma_plus_nothing(x.add(Binary32(ZERO).mul(y)), Binary32(ZERO));
}

proof fn lemma_kept_behind(x: Binary32, y: Binary32)
    requires
        x.finite(),
        y.finite(),
    ensures
        Binary32(ZERO).mul(y).add(x).add(Binary32(ZERO)).equals(x),
{
    lemma_values();
    lemma_zero_product(Binary32(ZERO), y);
    lemma_add_value(Binary32(ZERO).mul(y), x);
    lemma_rounded_exact(x);
    lemma_same_size(Binary32(ZERO).mul(y).add(x), x);
    lemma_plus_nothing(Binary32(ZERO).mul(y).add(x), Binary32(ZERO));
}

/// Whether two transforms have the same coefficients.
pub open spec fn same_transform(s: PaintTransform, t: PaintTransform) -> bool {
    &&& s.xx.equals(t.xx)
    &&& s.yx.equals(t.yx)
    &&& s.xy.equals(t.xy)
    &&& s.yy.equals(t.yy)
    &&& s.dx.equals(t.dx)
    &&& s.dy.equals(t.dy)
}

/// The identity, put inside or outside a transform, does not change it.
pub proof fn identity_changes_no_transform(t: PaintTransform)
    requires
        t.xx.finite(),
        t.yx.finite(),
        t.xy.finite(),
        t.yy.finite(),
        t.dx.finite(),
        t.dy.finite(),
    ensures
        same_transform(PaintTransform::identity().then_outer(t), t),
        same_transform(t.then_outer(PaintTransform::identity()), t),
{
    lemma_first(t.xx, t.xy);
    lemma_first(t.yx, t.yy);
    lemma_second(t.xx, t.xy);
    lemma_second(t.yx, t.yy);
    lemma_neither(t.xx, t.xy, t.dx);
    lemma_neither(t.yx, t.yy, t.dy);
    lemma_first_of(t.xx, t.yx);
    lemma_first_of(t.xy, t.yy);
    lemma_second_of(t.xx, t.yx);
    lemma_second_of(t.xy, t.yy);
    lemma_kept(t.dx, t.dy);
    lemma_kept_behind(t.dy, t.dx);
    lemma_mul_one(t.dx);
    lemma_mul_one(t.dy);
}

proof fn lemma_first(x: Binary32, y: Binary32)
    requires
        x.finite(),
        y.finite(),
    ensures
        x.mul(Binary32(ONE)).add(y.mul(Binary32(ZERO))).equals(x),
{
    lemma_values();
    lemma_mul_one(x);
    products_commute(y, Binary32(ZERO));
    lemma_zero_product(Binary32(ZERO), y);
    lemma_plus_nothing(x, Binary32(ZERO).mul(y));
}

proof fn lemma_second(x: Binary32, y: Binary32)
    requires
        x.finite(),
        y.finite(),
    ensures
        x.mul(Binary32(ZERO)).add(y.mul(Binary32(ONE))).equals(y),
{
    lemma_first(y, x);
    sums_commute(x.mul(Binary32(ZERO)), y.mul(Binary32(ONE)));
}

proof fn lemma_neither(x: Binary32, y: Binary32, z: Binary32)
    requires
        x.finite(),
        y.finite(),
        z.finite(),
    ensures
        x.mul(Binary32(ZERO)).add(y.mul(Binary32(ZERO))).add(z).equals(z),
{
    lemma_values();
    let (a, b) = (x.mul(Binary32(ZERO)), y.mul(Binary32(ZERO)));
    products_commute(x, Binary32(ZERO));
    products_commute(y, Binary32(ZERO));
    lemma_zero_product(Binary32(ZERO), x);
    lemma_zero_product(Binary32(ZERO), y);
    lemma_plus_nothing(a, b);
    lemma_plus_nothing(z, a.add(b));
    sums_commute(a.add(b), z);
}

proof fn lemma_first_of(x: Binary32, y: Binary32)
    requires
        x.finite(),
        y.finite(),
    ensures
        Binary32(ONE).mul(x).add(Binary32(ZERO).mul(y)).equals(x),
{
    lemma_first(x, y);
    products_commute(x, Binary32(ONE));
    products_commute(y, Binary32(ZERO));
}

proof fn lemma_second_of(x: Binary32, y: Binary32)
    requires
        x.finite(),
        y.finite(),
    ensures
        Binary32(ZERO).mul(x).add(Binary32(ONE).mul(y)).equals(y),
{
    lemma_second(x, y);
    products_commute(y, Binary32(ONE));
    products_commute(x, Binary32(ZERO));
}

} // verus!
