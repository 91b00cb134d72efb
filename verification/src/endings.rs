//! What a short ending costs.

use crate::accounting::{accountable, lemma_reach, reach, speck};
use crate::binary64::Binary64;
use crate::costs::lemma_capacity_sign;
use crate::errors::{
    amount, lemma_add_error, lemma_amount_one, lemma_amount_order, lemma_amount_zero, lemma_count,
    lemma_div_error, lemma_mul_error, lemma_near, lemma_ratio_error, lemma_sizes, lemma_tiny,
    lemma_unit, near, size, tiny, ulp,
};
use crate::fit::{
    capacity, ending_cost, finished, fitted, given_up, preferred, shortfall, space_budget, strain,
    used, Extent,
};
use crate::model::{Ending, Mode, Options};
use crate::numeric::{cube, js_max, js_min, js_sign, square, truthy};
use crate::overflow::{lemma_large, lemma_nothing};
use crate::signs::{lemma_add_sign, lemma_mul_sign, lemma_one, lemma_ratio_sign, lemma_zero};
use crate::solve::{policy_values, sound, unsigned};
use vstd::arithmetic::power2::pow2;
use vstd::prelude::*;

verus! {

/// A product of what is near to something.
pub proof fn lemma_near_product(a: real, r: real, d: real, b: real, s: real, e: real)
    requires
        near(a, r, d),
        near(b, s, e),
        0real <= d,
        0real <= e,
        0real <= r,
        0real <= s,
    ensures
        near(a * b, r * s, r * e + s * d + d * e),
{
    let (x, y) = (a - r, b - s);
    assert(a * b - r * s == r * y + s * x + x * y) by (nonlinear_arith)
        requires
            x == a - r,
            y == b - s,
    ;
    assert(-(r * e) <= r * y <= r * e && -(s * d) <= s * x <= s * d && -(d * e) <= x * y <= d * e)
        by (nonlinear_arith)
        requires
            -d <= x <= d,
            -e <= y <= e,
            0real <= r,
            0real <= s,
            0real <= d,
            0real <= e,
    ;
}

/// A rounded product of what is near to something.
pub proof fn lemma_product_near(
    x: Binary64,
    r: real,
    d: real,
    y: Binary64,
    s: real,
    e: real,
)
    requires
        x.is_finite(),
        y.is_finite(),
        near(amount(x), r, d),
        near(amount(y), s, e),
        0real <= d,
        0real <= e,
        0real <= r,
        0real <= s,
        r * s + r * e + s * d + d * e <= reach(),
    ensures
        (x * y).is_finite(),
        near(
            amount(x * y),
            r * s,
            r * e + s * d + d * e + ulp() * (r * s + r * e + s * d + d * e) + speck(),
        ),
{
    lemma_unit();
    lemma_reach();
    lemma_tiny(1real);
    let (a, b) = (amount(x), amount(y));
    lemma_near_product(a, r, d, b, s, e);
    let off = r * e + s * d + d * e;
    assert(r * s >= 0real) by (nonlinear_arith)
        requires
            r >= 0real,
            s >= 0real,
    ;
    lemma_near(a * b, r * s, off);
    lemma_sizes(r * s, 0real);
    lemma_sizes(a * b, 0real);
    lemma_mul_error(x, y);
}

/// A cube of what is near to something that is at most five.
pub proof fn lemma_cube_near(q: Binary64, r: real)
    requires
        q.is_finite(),
        near(amount(q), r, 1real / 1000000000000real),
        0real <= r <= 5real,
    ensures
        cube(q).is_finite(),
        near(amount(cube(q)), r * r * r, 1real / 1000000000real),
{
    lemma_reach();
    let d = 1real / 1000000000000real;
    let rr = r * r;
    assert(0real <= rr <= 25real && 0real <= rr * r <= 125real) by (nonlinear_arith)
        requires
            rr == r * r,
            0real <= r <= 5real,
    ;
    assert(r * d <= 5real * d && d * d <= d && r * d >= 0real && d * d >= 0real) by (nonlinear_arith)
        requires
            0real <= r <= 5real,
            d == 1real / 1000000000000real,
    ;
    lemma_product_near(q, r, d, q, r, d);
    let e = 1real / 50000000000real;
    assert(near(amount(q * q), rr, e));
    assert(rr * d <= 25real * d && r * e <= 5real * e && e * d <= d && rr * d >= 0real && r * e
        >= 0real && e * d >= 0real) by (nonlinear_arith)
        requires
            0real <= r <= 5real,
            0real <= rr <= 25real,
            d == 1real / 1000000000000real,
            e == 1real / 50000000000real,
    ;
    lemma_product_near(q * q, rr, e, q, r, d);
}

/// What a last line misses of the part of the measure that it should fill.
pub open spec fn missing_of(x: Extent, width: Binary64, o: Options) -> Binary64 {
    js_max(Binary64::zero(), o.last_line * width - x.natural)
}

/// What a last line could still give by opening its spaces and letters, at
/// least one space.
pub open spec fn opening_room(x: Extent, space: Binary64, o: Options) -> Binary64 {
    js_max(
        space,
        Binary64::from_count(x.gaps) * space * o.stretch + x.chars * o.tracking,
    )
}

/// Nothing over something is nothing.
proof fn lemma_no_share(z: Binary64, y: Binary64)
    requires
        z.mag() == 0,
        !y.is_nan(),
        y.mag() > 0,
    ensures
        (z / y).mag() == 0,
{
    reveal(Binary64::spec_euclidean_or_real_div);
    lemma_zero();
    if y.is_finite() {
        crate::rounding::lemma_magnitude_monotone(0, y.mag());
        assert(0 * pow2(1074) == 0) by (nonlinear_arith);
    }
}

/// Nothing and nothing is nothing.
proof fn lemma_no_sum(y: Binary64, z: Binary64)
    requires
        y.mag() == 0,
        z.mag() == 0,
    ensures
        (y + z).mag() == 0,
        (y - z).mag() == 0,
{
    reveal(Binary64::spec_sub);
    reveal(Binary64::spec_neg);
    reveal(Binary64::spec_add);
    lemma_zero();
}

/// A last line that fits is left as it is, and costs one and its ending.
proof fn lemma_fitting_line(
    start: usize,
    end: usize,
    x: Extent,
    space: Binary64,
    width: Binary64,
    o: Options,
    e: bool,
)
    requires
        start < end,
        x.gaps == end - start - 1,
        accountable(x, space, width, o),
        x.last,
        x.natural.le(width + x.hanging + x.opening),
        ending_cost(x, space, width, o).is_finite(),
        size(amount(ending_cost(x, space, width, o))) <= reach(),
    ensures
        ({
            let price = amount(ending_cost(x, space, width, o));
            let cost = fitted(start, end, x, space, width, o, e).cost;
            &&& cost.is_finite()
            &&& near(amount(cost), 1real + price, ulp() * (1real + size(price)))
        }),
{
    let zero = Binary64::zero();
    let one = Binary64::one();
    let delta = shortfall(x, width);
    assert(delta == zero);
    let all = capacity(x, space, delta, o);
    let budget = space_budget(x, space, delta, o);
    let v = policy_values(o);
    assert(unsigned(v[2]));
    lemma_one();
    lemma_unit();
    lemma_reach();
    lemma_amount_zero();
    lemma_amount_one();
    lemma_zero();
    lemma_ratio_sign(100, 1);
    lemma_ratio_sign(1, 100);
    lemma_ratio_error(100, 1);
    lemma_ratio_error(12_599_210_498_948_732, 10_000_000_000_000_000);
    lemma_ratio_sign(12_599_210_498_948_732, 10_000_000_000_000_000);
    lemma_capacity_sign(x, space, delta, o);
    reveal(Binary64::spec_abs);
    // What the line may give is a number.
    lemma_amount_order(budget, zero);
    lemma_amount_order(x.chars, zero);
    lemma_amount_order(o.tracking, zero);
    let (c, q) = (amount(x.chars), amount(o.tracking));
    let cq = c * q;
    assert(cq >= 0real) by (nonlinear_arith)
        requires
            cq == c * q,
            c >= 0real,
            q >= 0real,
    ;
    lemma_sizes(cq, 0real);
    lemma_mul_error(x.chars, o.tracking);
    lemma_tiny(1real);
    let track = x.chars * o.tracking;
    lemma_near(amount(track), cq, ulp() * cq + tiny());
    lemma_sizes(amount(budget), amount(track));
    lemma_sizes(amount(track), 0real);
    lemma_add_error(budget, track);
    assert(all.is_finite());
    // Nothing is used of it.
    let ratio = used(delta, all);
    assert(ratio.mag() == 0) by {
        if truthy(all) {
            lemma_no_share(delta.abs(), all);
            lemma_amount_order(ratio, zero);
        }
    }
    let share = js_sign(delta) * ratio;
    lemma_nothing(js_sign(delta), ratio);
    lemma_nothing(share, all);
    let line = preferred(start, end, x, space, width, o);
    lemma_no_sum(delta, share * all);
    assert(line.residual.mag() == 0);
    let done = finished(line, space, o);
    assert(done == line);
    // Nothing strains it.
    let price = strain(line, x, space, o, e);
    let hundred = Binary64::ratio(100, 1);
    let unit = js_max(all, js_max(Binary64::from_count(x.gaps) * space, space));
    if o.mode == Mode::Balanced {
        assert(!unit.is_nan() && unit.mag() > 0) by {
            lemma_count(x.gaps);
            reveal(Binary64::spec_mul);
        }
        lemma_no_share(line.residual.abs(), unit);
        let sum = ratio + line.residual.abs() / unit;
        lemma_no_sum(ratio, line.residual.abs() / unit);
        lemma_nothing(sum, sum);
        lemma_nothing(sum * sum, sum);
        lemma_nothing(cube(sum), hundred);
        assert(price == hundred * cube(sum));
    } else {
        lemma_nothing(ratio, ratio);
        lemma_nothing(ratio * ratio, ratio);
        lemma_nothing(ratio * ratio * ratio, hundred);
    }
    assert(price.mag() == 0);
    lemma_nothing(price, one);
    let extra = price * one;
    // So it costs one and its ending.
    lemma_sizes(1real, 0real);
    let first = one + extra;
    lemma_exact_sum(one, extra);
    assert(!given_up(done.residual, x, space, width, o, e)) by {
        let bar = all * Binary64::ratio(12_599_210_498_948_732, 10_000_000_000_000_000);
        lemma_mul_sign(all, Binary64::ratio(12_599_210_498_948_732, 10_000_000_000_000_000));
        lemma_add_sign(bar, Binary64::ratio(1, 100));
    }
    lemma_exact_sum(first, zero);
    let fee = ending_cost(x, space, width, o);
    lemma_sizes(1real, amount(fee));
    lemma_sizes(amount(fee), 0real);
    lemma_add_error(first + zero, fee);
    lemma_near(
        amount(first + zero + fee),
        1real + amount(fee),
        ulp() * size(1real + amount(fee)),
    );
}

/// Adding nothing changes no amount.
pub proof fn lemma_exact_sum(x: Binary64, z: Binary64)
    requires
        x.is_finite(),
        z.mag() == 0,
    ensures
        (x + z).is_finite(),
        amount(x + z) == amount(x),
{
    reveal(Binary64::spec_add);
    lemma_zero();
    crate::rounding::lemma_rounded_magnitude(x.mag());
    let s = x + z;
    assert(z.value() == 0);
    assert(s.value() == x.value());
}

/// A whole number is exact.
pub proof fn lemma_exact(n: usize)
    requires
        n < 1_000_000_000,
    ensures
        Binary64::ratio(n as u64, 1).is_finite(),
        amount(Binary64::ratio(n as u64, 1)) == n as real,
{
    lemma_count(n);
    assert(Binary64::from_count(n) == Binary64::ratio(n as u64, 1));
}

/// What a short ending costs by its flexibility.
proof fn lemma_fit_price(x: Extent, space: Binary64, width: Binary64, o: Options, r: real)
    requires
        x.last,
        x.continued,
        o.ending == Ending::Fit,
        sound(o),
        space.is_finite(),
        space.gt(Binary64::zero()),
        missing_of(x, width, o).is_finite(),
        opening_room(x, space, o).is_finite(),
        amount(opening_room(x, space, o)) <= reach(),
        0real <= r <= 4real,
        r * amount(opening_room(x, space, o)) == amount(missing_of(x, width, o)),
        amount(o.widow_penalty) <= 1000000000000real,
    ensures
        ({
            let w = amount(o.widow_penalty);
            let price = ending_cost(x, space, width, o);
            &&& price.is_finite()
            &&& 0real <= w
            &&& near(
                amount(price),
                (w / 300real) * (100real * (r * r * r)),
                (1real + w) / 10000000real,
            )
            &&& size(amount(price)) <= 30real * (1real + w)
        }),
{
    let v = policy_values(o);
    assert(unsigned(v[10]));
    lemma_unit();
    lemma_reach();
    lemma_tiny(1real);
    lemma_amount_zero();
    lemma_exact(300);
    lemma_exact(100);
    lemma_exact(10_000);
    let (missing, room) = (missing_of(x, width, o), opening_room(x, space, o));
    let (m, f, w) = (amount(missing), amount(room), amount(o.widow_penalty));
    lemma_amount_order(o.widow_penalty, Binary64::zero());
    lemma_amount_order(space, Binary64::zero());
    lemma_amount_order(room, space);
    assert(f > 0real);
    let q = missing / room;
    assert(m / f == r) by (nonlinear_arith)
        requires
            r * f == m,
            f > 0real,
    ;
    lemma_sizes(r, 0real);
    lemma_div_error(missing, room);
    lemma_cube_near(q, r);
    let rr = r * r;
    let r3 = rr * r;
    assert(0real <= rr <= 16real && 0real <= r3 <= 64real) by (nonlinear_arith)
        requires
            rr == r * r,
            r3 == rr * r,
            0real <= r <= 4real,
    ;
    let k = cube(q);
    let d = 1real / 1000000000real;
    let hundred = Binary64::ratio(100, 1);
    lemma_product_near(hundred, 100real, 0real, k, r3, d);
    let hp = 100real * r3;
    let p = hundred * k;
    let e = 1real / 5000000real;
    assert(near(amount(p), hp, e));
    let top = Binary64::ratio(10_000, 1);
    lemma_amount_order(p, top);
    assert(js_min(top, p) == p);
    let three = Binary64::ratio(300, 1);
    let w3 = w / 300real;
    lemma_sizes(w3, 0real);
    lemma_div_error(o.widow_penalty, three);
    let c = o.widow_penalty / three;
    let g = ulp() * w3 + speck();
    assert(near(amount(c), w3, g));
    assert(w3 * e + hp * g + g * e <= (1real + w) / 20000000real && w3 * e >= 0real && hp * g
        >= 0real && g * e >= 0real && w3 * hp <= 22real * w && 0real <= w3 * hp)
        by (nonlinear_arith)
        requires
            w3 == w / 300real,
            0real <= w <= 1000000000000real,
            0real <= hp <= 6400real,
            e == 1real / 5000000real,
            g == (1real / 9007199254740992real) * w3 + 1real / 18446744073709551616real,
    ;
    lemma_product_near(c, w3, g, p, hp, e);
    let price = ending_cost(x, space, width, o);
    assert(price == c * p);
    lemma_near(amount(price), w3 * hp, (1real + w) / 10000000real);
    lemma_sizes(w3 * hp, 0real);
}

/// A short last line is priced by its flexibility: missing `r` times what its
/// spaces and letters could still give, it costs a third of the widow penalty
/// times the cube of `r`, up to four times; one that misses exactly its own
/// flexibility costs a third of the widow penalty more than one that misses
/// nothing.
pub proof fn law_short_ending_is_priced_by_flexibility(
    start: usize,
    end: usize,
    x: Extent,
    space: Binary64,
    width: Binary64,
    o: Options,
    e: bool,
    r: real,
)
    requires
        start < end,
        x.gaps == end - start - 1,
        accountable(x, space, width, o),
        x.last,
        x.continued,
        x.natural.le(width + x.hanging + x.opening),
        o.ending == Ending::Fit,
        missing_of(x, width, o).is_finite(),
        opening_room(x, space, o).is_finite(),
        amount(opening_room(x, space, o)) <= reach(),
        0real <= r <= 4real,
        r * amount(opening_room(x, space, o)) == amount(missing_of(x, width, o)),
        amount(o.widow_penalty) <= 1000000000000real,
    ensures
        ({
            let w = amount(o.widow_penalty);
            let cost = fitted(start, end, x, space, width, o, e).cost;
            &&& cost.is_finite()
            &&& near(
                amount(cost),
                1real + (w / 300real) * (100real * (r * r * r)),
                (1real + w) / 1000000real,
            )
        }),
{
    lemma_reach();
    lemma_fit_price(x, space, width, o, r);
    lemma_fitting_line(start, end, x, space, width, o, e);
    lemma_sizes(amount(ending_cost(x, space, width, o)), 0real);
}

/// A softly priced short last line costs the widow penalty times the square of
/// the part of the measure that it misses.
pub proof fn law_soft_ending_is_priced_by_width(
    start: usize,
    end: usize,
    x: Extent,
    space: Binary64,
    width: Binary64,
    o: Options,
    e: bool,
    r: real,
)
    requires
        start < end,
        x.gaps == end - start - 1,
        accountable(x, space, width, o),
        x.last,
        x.continued,
        x.natural.le(width + x.hanging + x.opening),
        o.ending == Ending::Soft,
        missing_of(x, width, o).is_finite(),
        width.gt(Binary64::zero()),
        0real <= r <= 4real,
        r * amount(width) == amount(missing_of(x, width, o)),
        amount(o.widow_penalty) <= 1000000000000real,
    ensures
        ({
            let w = amount(o.widow_penalty);
            let cost = fitted(start, end, x, space, width, o, e).cost;
            &&& cost.is_finite()
            &&& near(amount(cost), 1real + w * (r * r), (1real + w) / 1000000real)
        }),
{
    let v = policy_values(o);
    assert(unsigned(v[10]));
    lemma_unit();
    lemma_reach();
    lemma_tiny(1real);
    lemma_amount_zero();
    let missing = missing_of(x, width, o);
    let (m, f, w) = (amount(missing), amount(width), amount(o.widow_penalty));
    lemma_amount_order(o.widow_penalty, Binary64::zero());
    lemma_amount_order(width, Binary64::zero());
    let q = missing / width;
    assert(m / f == r) by (nonlinear_arith)
        requires
            r * f == m,
            f > 0real,
    ;
    lemma_sizes(r, 0real);
    lemma_div_error(missing, width);
    let d = 1real / 1000000000000real;
    let rr = r * r;
    assert(0real <= rr <= 16real && 0real <= r * d <= 4real * d && 0real <= d * d <= d)
        by (nonlinear_arith)
        requires
            rr == r * r,
            0real <= r <= 4real,
            d == 1real / 1000000000000real,
    ;
    lemma_product_near(q, r, d, q, r, d);
    let g = 1real / 50000000000real;
    assert(near(amount(q * q), rr, g));
    assert(0real <= w * g <= w / 50000000000real && 0real <= w * rr <= 16real * w)
        by (nonlinear_arith)
        requires
            0real <= w,
            0real <= rr <= 16real,
            g == 1real / 50000000000real,
    ;
    assert(rr * 0real == 0real && 0real * g == 0real) by (nonlinear_arith);
    lemma_product_near(o.widow_penalty, w, 0real, q * q, rr, g);
    let price = ending_cost(x, space, width, o);
    assert(price == o.widow_penalty * square(q));
    lemma_near(amount(price), w * rr, (1real + w) / 10000000real);
    lemma_sizes(w * rr, 0real);
    lemma_fitting_line(start, end, x, space, width, o, e);
    lemma_sizes(amount(price), 0real);
}

/// A last line that follows none, or that misses nothing, costs nothing for its
/// ending.
pub proof fn law_full_ending_is_free(
    start: usize,
    end: usize,
    x: Extent,
    space: Binary64,
    width: Binary64,
    o: Options,
    e: bool,
)
    requires
        start < end,
        x.gaps == end - start - 1,
        accountable(x, space, width, o),
        x.last,
        !x.continued,
        x.natural.le(width + x.hanging + x.opening),
    ensures
        fitted(start, end, x, space, width, o, e).cost.is_finite(),
        near(amount(fitted(start, end, x, space, width, o, e).cost), 1real, ulp()),
{
    lemma_amount_zero();
    lemma_sizes(0real, 0real);
    lemma_reach();
    lemma_fitting_line(start, end, x, space, width, o, e);
    assert(ending_cost(x, space, width, o) == Binary64::zero());
    assert(ulp() * (1real + 0real) == ulp());
    reveal(size);
}

/// A large share has a large cube.
proof fn lemma_large_cube(q: Binary64, r: real)
    requires
        q.is_finite(),
        near(amount(q), r, 1real / 1000real),
        5real <= r <= 1000000real,
    ensures
        cube(q).is_finite(),
        120real <= amount(cube(q)) <= 10000000000000000000000real,
{
    lemma_unit();
    lemma_large();
    lemma_reach();
    lemma_tiny(1real);
    let a = amount(q);
    let aa = a * a;
    assert(249real / 10real <= aa <= 1000010000000real) by (nonlinear_arith)
        requires
            aa == a * a,
            4999real / 1000real <= a <= 1000001real,
    ;
    lemma_sizes(aa, 0real);
    assert(size(aa) == aa) by {
        reveal(size);
    }
    lemma_mul_error(q, q);
    let b = amount(q * q);
    let ba = b * a;
    assert(121real <= ba <= 2000000000000000000real) by (nonlinear_arith)
        requires
            ba == b * a,
            248real / 10real <= b <= 1000020000000real,
            4999real / 1000real <= a <= 1000001real,
    ;
    lemma_sizes(ba, 0real);
    assert(size(ba) == ba) by {
        reveal(size);
    }
    lemma_mul_error(q * q, q);
}

/// The price of a short ending has an end: one that misses five times its
/// flexibility or more costs a hundred thirds of the widow penalty.
pub proof fn law_short_ending_is_capped(
    start: usize,
    end: usize,
    x: Extent,
    space: Binary64,
    width: Binary64,
    o: Options,
    e: bool,
    r: real,
)
    requires
        start < end,
        x.gaps == end - start - 1,
        accountable(x, space, width, o),
        x.last,
        x.continued,
        x.natural.le(width + x.hanging + x.opening),
        o.ending == Ending::Fit,
        missing_of(x, width, o).is_finite(),
        opening_room(x, space, o).is_finite(),
        amount(opening_room(x, space, o)) <= reach(),
        5real <= r <= 1000000real,
        r * amount(opening_room(x, space, o)) == amount(missing_of(x, width, o)),
        amount(o.widow_penalty) <= 1000000000000real,
    ensures
        ({
            let w = amount(o.widow_penalty);
            let cost = fitted(start, end, x, space, width, o, e).cost;
            &&& cost.is_finite()
            &&& near(amount(cost), 1real + (w / 300real) * 10000real, (1real + w) / 1000000real)
        }),
{
    let v = policy_values(o);
    assert(unsigned(v[10]));
    lemma_unit();
    lemma_large();
    lemma_reach();
    lemma_tiny(1real);
    lemma_amount_zero();
    lemma_exact(300);
    lemma_exact(100);
    lemma_exact(10_000);
    let (missing, room) = (missing_of(x, width, o), opening_room(x, space, o));
    let (m, f, w) = (amount(missing), amount(room), amount(o.widow_penalty));
    lemma_amount_order(o.widow_penalty, Binary64::zero());
    lemma_amount_order(space, Binary64::zero());
    lemma_amount_order(room, space);
    let q = missing / room;
    assert(m / f == r) by (nonlinear_arith)
        requires
            r * f == m,
            f > 0real,
    ;
    lemma_sizes(r, 0real);
    assert(size(r) == r) by {
        reveal(size);
    }
    lemma_div_error(missing, room);
    lemma_large_cube(q, r);
    let hundred = Binary64::ratio(100, 1);
    let k = cube(q);
    let z = 100real * amount(k);
    lemma_sizes(z, 0real);
    assert(size(z) == z) by {
        reveal(size);
    }
    lemma_mul_error(hundred, k);
    let p = hundred * k;
    let top = Binary64::ratio(10_000, 1);
    lemma_amount_order(top, p);
    assert(js_min(top, p) == top);
    let three = Binary64::ratio(300, 1);
    let w3 = w / 300real;
    lemma_sizes(w3, 0real);
    assert(size(w3) == w3) by {
        reveal(size);
    }
    lemma_div_error(o.widow_penalty, three);
    let c = o.widow_penalty / three;
    let y = amount(c) * 10000real;
    lemma_sizes(y, 0real);
    assert(size(y) <= 40real * (1real + w)) by {
        reveal(size);
    }
    lemma_mul_error(c, top);
    let price = ending_cost(x, space, width, o);
    assert(price == c * top);
    lemma_sizes(amount(price), 0real);
    assert(size(amount(price)) <= 40real * (1real + w)) by {
        reveal(size);
    }
    lemma_fitting_line(start, end, x, space, width, o, e);
}

/// A last line that fits is left as it is: it has its natural spacing, no
/// tracking, and nothing left over.
pub proof fn law_fitting_last_line_is_left(
    start: usize,
    end: usize,
    x: Extent,
    space: Binary64,
    width: Binary64,
    o: Options,
    e: bool,
)
    requires
        start < end,
        x.gaps == end - start - 1,
        accountable(x, space, width, o),
        x.last,
        x.natural.le(width + x.hanging + x.opening),
    ensures
        ({
            let line = fitted(start, end, x, space, width, o, e);
            let zero = Binary64::zero();
            &&& line.word_spacing.same(zero) && line.tracking.same(zero)
            &&& line.residual.same(zero)
            &&& line.natural == x.natural
            &&& !line.relaxed
        }),
{
    let zero = Binary64::zero();
    let delta = shortfall(x, width);
    assert(delta == zero);
    let v = policy_values(o);
    assert(unsigned(v[2]));
    let all = capacity(x, space, delta, o);
    let budget = space_budget(x, space, delta, o);
    lemma_one();
    lemma_unit();
    lemma_reach();
    lemma_amount_zero();
    lemma_zero();
    lemma_capacity_sign(x, space, delta, o);
    reveal(Binary64::spec_abs);
    lemma_amount_order(budget, zero);
    lemma_amount_order(x.chars, zero);
    lemma_amount_order(o.tracking, zero);
    let (c, q) = (amount(x.chars), amount(o.tracking));
    let cq = c * q;
    assert(cq >= 0real) by (nonlinear_arith)
        requires
            cq == c * q,
            c >= 0real,
            q >= 0real,
    ;
    lemma_sizes(cq, 0real);
    lemma_mul_error(x.chars, o.tracking);
    lemma_tiny(1real);
    let track = x.chars * o.tracking;
    lemma_near(amount(track), cq, ulp() * cq + tiny());
    lemma_sizes(amount(budget), amount(track));
    lemma_sizes(amount(track), 0real);
    lemma_add_error(budget, track);
    let ratio = used(delta, all);
    assert(ratio.mag() == 0) by {
        if truthy(all) {
            lemma_no_share(delta.abs(), all);
            lemma_amount_one();
        }
    }
    let share = js_sign(delta) * ratio;
    lemma_nothing(js_sign(delta), ratio);
    lemma_nothing(share, all);
    lemma_nothing(share, budget);
    lemma_nothing(share, o.tracking);
    lemma_no_sum(delta, share * all);
    let line = preferred(start, end, x, space, width, o);
    if x.gaps != 0 {
        let count = Binary64::from_count(x.gaps);
        lemma_count(x.gaps);
        lemma_amount_order(count, zero);
        lemma_no_share(share * budget, count);
    }
    assert(line.residual.mag() == 0);
    assert(finished(line, space, o) == line);
}

/// A more flexible ending costs no more: of two last lines that miss the same,
/// the one whose gaps and characters could give more never costs more for its
/// ending, but for rounding.
pub proof fn law_flexible_ending_costs_no_more(
    stiff: Extent,
    supple: Extent,
    space: Binary64,
    width: Binary64,
    o: Options,
    r: real,
    t: real,
)
    requires
        stiff.last && stiff.continued && supple.last && supple.continued,
        o.ending == Ending::Fit,
        sound(o),
        space.is_finite(),
        space.gt(Binary64::zero()),
        stiff.natural == supple.natural,
        missing_of(stiff, width, o).is_finite(),
        opening_room(stiff, space, o).is_finite(),
        opening_room(supple, space, o).is_finite(),
        amount(opening_room(stiff, space, o)) <= amount(opening_room(supple, space, o)) <= reach(),
        0real <= r <= 4real,
        0real <= t,
        r * amount(opening_room(stiff, space, o)) == amount(missing_of(stiff, width, o)),
        t * amount(opening_room(supple, space, o)) == amount(missing_of(supple, width, o)),
        amount(o.widow_penalty) <= 1000000000000real,
    ensures
        ending_cost(stiff, space, width, o).is_finite(),
        ending_cost(supple, space, width, o).is_finite(),
        amount(ending_cost(supple, space, width, o)) <= amount(
            ending_cost(stiff, space, width, o),
        ) + (1real + amount(o.widow_penalty)) / 1000000real,
{
    let (a, b) = (
        amount(opening_room(stiff, space, o)),
        amount(opening_room(supple, space, o)),
    );
    lemma_amount_zero();
    lemma_amount_order(space, Binary64::zero());
    lemma_amount_order(opening_room(stiff, space, o), space);
    assert(t <= r) by (nonlinear_arith)
        requires
            r * a == t * b,
            0real < a <= b,
            0real <= r,
            0real <= t,
    ;
    lemma_fit_price(stiff, space, width, o, r);
    lemma_fit_price(supple, space, width, o, t);
    let w3 = amount(o.widow_penalty) / 300real;
    let (x, y) = (100real * (t * t * t), 100real * (r * r * r));
    let (tt, rr) = (t * t, r * r);
    assert(tt <= rr && 0real <= tt) by (nonlinear_arith)
        requires
            tt == t * t,
            rr == r * r,
            0real <= t <= r,
    ;
    assert(tt * t <= rr * r) by (nonlinear_arith)
        requires
            0real <= tt <= rr,
            0real <= t <= r,
    ;
    assert(w3 * x <= w3 * y) by (nonlinear_arith)
        requires
            x <= y,
            w3 >= 0real,
    ;
}

}
