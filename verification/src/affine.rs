//! Affine transforms of the plane.
use crate::binary32::Binary32;
use crate::consts::{ONE, TRILLIONTH, ZERO};
use vstd::prelude::*;

verus! {

/// The transform `x' = xx*x + xy*y + dx`, `y' = yx*x + yy*y + dy`.
#[derive(Copy, Clone, Debug, PartialEq, Eq, Structural)]
pub struct PaintTransform {
    pub xx: Binary32,
    pub yx: Binary32,
    pub xy: Binary32,
    pub yy: Binary32,
    pub dx: Binary32,
    pub dy: Binary32,
}

impl PaintTransform {
    pub open spec fn spec_identity() -> PaintTransform {
        PaintTransform {
            xx: Binary32(ONE),
            yx: Binary32(ZERO),
            xy: Binary32(ZERO),
            yy: Binary32(ONE),
            dx: Binary32(ZERO),
            dy: Binary32(ZERO),
        }
    }

    /// The transform that leaves every point where it is.
    #[verifier::when_used_as_spec(spec_identity)]
    pub fn identity() -> (t: PaintTransform)
        ensures
            t == PaintTransform::spec_identity(),
    {
        PaintTransform {
            xx: Binary32(ONE),
            yx: Binary32(ZERO),
            xy: Binary32(ZERO),
            yy: Binary32(ONE),
            dx: Binary32(ZERO),
            dy: Binary32(ZERO),
        }
    }

    pub open spec fn spec_then_outer(self, outer: PaintTransform) -> PaintTransform {
        PaintTransform {
            xx: outer.xx.mul(self.xx).add(outer.xy.mul(self.yx)),
            yx: outer.yx.mul(self.xx).add(outer.yy.mul(self.yx)),
            xy: outer.xx.mul(self.xy).add(outer.xy.mul(self.yy)),
            yy: outer.yx.mul(self.xy).add(outer.yy.mul(self.yy)),
            dx: outer.xx.mul(self.dx).add(outer.xy.mul(self.dy)).add(outer.dx),
            dy: outer.yx.mul(self.dx).add(outer.yy.mul(self.dy)).add(outer.dy),
        }
    }

    /// The transform that applies this one first and `outer` to what it gives:
    /// the matrix product of `outer` and this.
    #[verifier::when_used_as_spec(spec_then_outer)]
    pub fn then_outer(self, outer: PaintTransform) -> (t: PaintTransform)
        ensures
            t == self.spec_then_outer(outer),
    {
        PaintTransform {
            xx: outer.xx.mul(self.xx).add(outer.xy.mul(self.yx)),
            yx: outer.yx.mul(self.xx).add(outer.yy.mul(self.yx)),
            xy: outer.xx.mul(self.xy).add(outer.xy.mul(self.yy)),
            yy: outer.yx.mul(self.xy).add(outer.yy.mul(self.yy)),
            dx: outer.xx.mul(self.dx).add(outer.xy.mul(self.dy)).add(outer.dx),
            dy: outer.yx.mul(self.dx).add(outer.yy.mul(self.dy)).add(outer.dy),
        }
    }

    /// The determinant of the linear part.
    pub open spec fn determinant(self) -> Binary32 {
        self.xx.mul(self.yy).sub(self.xy.mul(self.yx))
    }

    /// Whether the transform is too close to collapsing the plane to be inverted.
    pub open spec fn singular(self) -> bool {
        self.determinant().abs().less(Binary32(TRILLIONTH))
    }

    /// The inverse, by the adjugate over the determinant.
    pub open spec fn inverse(self) -> PaintTransform {
        let over = Binary32(ONE).div(self.determinant());
        PaintTransform {
            xx: self.yy.mul(over),
            yx: self.yx.neg().mul(over),
            xy: self.xy.neg().mul(over),
            yy: self.xx.mul(over),
            dx: self.xy.mul(self.dy).sub(self.yy.mul(self.dx)).mul(over),
            dy: self.yx.mul(self.dx).sub(self.xx.mul(self.dy)).mul(over),
        }
    }
}

pub open spec fn spec_transform_point(t: &PaintTransform, x: Binary32, y: Binary32) -> (
    Binary32,
    Binary32,
) {
    (t.xx.mul(x).add(t.xy.mul(y)).add(t.dx), t.yx.mul(x).add(t.yy.mul(y)).add(t.dy))
}

/// Transforms a point.
#[verifier::when_used_as_spec(spec_transform_point)]
pub fn transform_point(t: &PaintTransform, x: Binary32, y: Binary32) -> (p: (Binary32, Binary32))
    ensures
        p == spec_transform_point(t, x, y),
{
    (t.xx.mul(x).add(t.xy.mul(y)).add(t.dx), t.yx.mul(x).add(t.yy.mul(y)).add(t.dy))
}

/// Inverts a transform, if it is not singular.
pub fn invert_transform(t: &PaintTransform) -> (r: Option<PaintTransform>)
    ensures
        r == if t.singular() {
            None
        } else {
            Some(t.inverse())
        },
{
    let determinant = t.xx.mul(t.yy).sub(t.xy.mul(t.yx));
    if determinant.abs().less(Binary32(TRILLIONTH)) {
        return None;
    }
    let over = Binary32(ONE).div(determinant);
    Some(
        PaintTransform {
            xx: t.yy.mul(over),
            yx: t.yx.neg().mul(over),
            xy: t.xy.neg().mul(over),
            yy: t.xx.mul(over),
            dx: t.xy.mul(t.dy).sub(t.yy.mul(t.dx)).mul(over),
            dy: t.yx.mul(t.dx).sub(t.xx.mul(t.dy)).mul(over),
        },
    )
}

} // verus!
