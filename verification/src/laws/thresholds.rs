//! What counts as nothing, against exact real numbers.
use crate::affine::PaintTransform;
use crate::binary32::Binary32;
use crate::canvas::squared_length;
use crate::consts::{BILLIONTH, TRILLIONTH};
use crate::laws::geometry::lemma_two_products;
use crate::laws::inverses::{lemma_bounded_product, lemma_crossed};
use crate::laws::lines::lemma_billionth_number;
use crate::laws::luminosities::lemma_binade;
use crate::laws::parameters::{lemma_near_product, step};
use crate::reals::{
    lemma_absolute_number, lemma_limit_size, lemma_number_order, lemma_part, lemma_product,
    lemma_subtraction, lemma_sum, lemma_times, limit, number, part, size, speck, within,
};
use vstd::arithmetic::power2::lemma2_to64_rest;
use vstd::prelude::*;

verus! {

/// The area that counts as nothing, as a real number.
proof fn lemma_trillionth_number()
    ensures
        number(Binary32(TRILLIONTH)) == 9223372real / 9223372036854775808real,
{
    lemma2_to64_rest();
    lemma_binade(0x008c_bccc, 86, 63);
}

/// A transform has an inverse where the area that it takes the unit square to is more than a
/// trillionth, and none where it is less, but for rounding. The coefficients are at most `m`.
pub proof fn transforms_that_spread_are_inverted(t: PaintTransform, m: real)
    requires
        within(t.xx, m),
        within(t.yx, m),
        within(t.xy, m),
        within(t.yy, m),
        m <= 1099511627776real,
    ensures
        ({
            let area = size(number(t.xx) * number(t.yy) - number(t.xy) * number(t.yx));
            let slack = 8real * (part() * (m * m)) + 4real * speck();
            &&& 999999000000real * (area - slack) >= 1real ==> !t.singular()
            &&& 1000001000000real * (area + slack) <= 1real ==> t.singular()
        }),
{
    lemma_limit_size();
    let k = m * m;
    lemma_bounded_product(number(t.xx), number(t.yy), m, m);
    lemma_bounded_product(number(t.xy), number(t.yx), m, m);
    lemma_times(m, 1099511627776real, m);
    let (p, q) = (number(t.xx) * number(t.yy), number(t.xy) * number(t.yx));
    lemma_part(size(p));
    lemma_part(size(q));
    lemma_product(t.xx, t.yy);
    lemma_product(t.xy, t.yx);
    let (f, h) = (t.xx.mul(t.yy), t.xy.mul(t.yx));
    lemma_part(size(number(f) - number(h)));
    lemma_subtraction(f, h);
    lemma_crossed(t.xx, t.yy, t.xy, t.yx, k);
    lemma_part(k);
    let det = t.determinant();
    lemma_absolute_number(det);
    lemma_trillionth_number();
    lemma_number_order(det.abs(), Binary32(TRILLIONTH));
    lemma_number_order(Binary32(TRILLIONTH), det.abs());
}

/// A gradient line is painted along where the square of its length is more than a trillionth, and
/// not where it is less, but for rounding. It is at most `d` long along each axis.
pub proof fn lines_that_reach_are_painted(
    p0: (Binary32, Binary32),
    p1: (Binary32, Binary32),
    d: real,
)
    requires
        p0.0.finite(),
        p0.1.finite(),
        p1.0.finite(),
        p1.1.finite(),
        size(step(p0.0, p1.0)) <= d,
        size(step(p0.1, p1.1)) <= d,
        d <= 1099511627776real,
    ensures
        ({
            let (x, y) = (step(p0.0, p1.0), step(p0.1, p1.1));
            let square = x * x + y * y;
            let slack = 32real * (part() * (d * d)) + 4real * speck();
            let flat = squared_length(p0, p1).less(Binary32(TRILLIONTH));
            &&& 999999000000real * (square - slack) >= 1real ==> !flat
            &&& 1000001000000real * (square + slack) <= 1real ==> flat
        }),
{
    lemma_limit_size();
    let (x, y) = (step(p0.0, p1.0), step(p0.1, p1.1));
    lemma_part(size(x));
    lemma_part(size(y));
    lemma_subtraction(p1.0, p0.0);
    lemma_subtraction(p1.1, p0.1);
    let (dx, dy) = (p1.0.sub(p0.0), p1.1.sub(p0.1));
    lemma_near_product(number(dx), number(dx), x, x, d, d);
    lemma_near_product(number(dy), number(dy), y, y, d, d);
    lemma_times(d, 1099511627776real, d);
    let dd = d * d;
    lemma_part(size(number(dx) * number(dx)));
    lemma_part(size(number(dy) * number(dy)));
    lemma_product(dx, dx);
    lemma_product(dy, dy);
    let (f, h) = (dx.mul(dx), dy.mul(dy));
    lemma_part(size(number(f) + number(h)));
    lemma_sum(f, h);
    lemma_two_products(dx, dx, dy, dy, 2real * dd);
    lemma_part(dd);
    let len = squared_length(p0, p1);
    lemma_trillionth_number();
    lemma_number_order(len, Binary32(TRILLIONTH));
    lemma_number_order(Binary32(TRILLIONTH), len);
}

/// The sector of a sweep gradient is painted where it is more than a billionth of a degree wide,
/// and not where it is less, but for a millionth of that.
pub proof fn sectors_that_open_are_painted(start: Binary32, end: Binary32)
    requires
        start.finite(),
        end.finite(),
        size(step(start, end)) <= limit(),
    ensures
        ({
            let width = size(step(start, end));
            let flat = end.sub(start).abs().less(Binary32(BILLIONTH));
            &&& 999999000real * width >= 1real ==> !flat
            &&& 1000001000real * width <= 1real ==> flat
        }),
{
    let width = step(start, end);
    lemma_part(size(width));
    lemma_subtraction(end, start);
    let sector = end.sub(start);
    lemma_absolute_number(sector);
    lemma_billionth_number();
    lemma_number_order(sector.abs(), Binary32(BILLIONTH));
    lemma_number_order(Binary32(BILLIONTH), sector.abs());
}

} // verus!
