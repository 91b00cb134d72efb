//! What it costs to strain a line.

use crate::accounting::{
    accountable, lemma_preferred_accounts, lemma_reach, lemma_self_share, lemma_shortfall_error,
    measure_of, speck,
};
use crate::binary64::Binary64;
use crate::completion::{law_opened_line_ends_at_measure, lemma_completed, lemma_opened};
use crate::endings::{lemma_cube_near, lemma_exact, lemma_exact_sum, lemma_product_near};
use crate::errors::{
    amount, lemma_add_error, lemma_amount_abs, lemma_amount_one, lemma_amount_order,
    lemma_amount_zero, lemma_count, lemma_div_error, lemma_mul_error, lemma_near, lemma_ratio_error,
    lemma_sizes, lemma_sub_error, lemma_tiny, lemma_unit, near, size, tiny, ulp,
};
use crate::fit::{
    capacity, ending_cost, failure_cost, finished, fitted, given_up, overflow_cost, preferred,
    shortfall, strain, used, Extent,
};
use crate::model::{Mode, Options};
use crate::numeric::{cube, js_max, js_sign, truthy};
use crate::overflow::{lemma_nothing, lemma_opposite};
use crate::signs::{lemma_div_sizes, lemma_mul_one, lemma_one, lemma_ratio_sign, lemma_zero};
use vstd::prelude::*;

verus! {

/// The part of a capacity that is used is what is asked for over it.
proof fn lemma_used_near(delta: Binary64, all: Binary64, r: real)
    requires
        delta.is_finite(),
        all.is_finite(),
        0real <= r <= 1real,
        1real / 1000000real <= amount(all) <= 1000000000000real,
        r * amount(all) == size(amount(delta)),
    ensures
        used(delta, all).is_finite(),
        0real <= amount(used(delta, all)) <= 1real,
        near(amount(used(delta, all)), r, ulp() * r + tiny()),
        near(amount(used(delta, all)), r, 1real / 1000000000000real),
{
    lemma_unit();
    lemma_reach();
    lemma_tiny(1real);
    lemma_amount_zero();
    lemma_amount_one();
    lemma_one();
    lemma_amount_abs(delta);
    lemma_amount_order(all, Binary64::zero());
    let (a, d) = (amount(all), size(amount(delta)));
    assert(truthy(all));
    assert(d / a == r) by (nonlinear_arith)
        requires
            r * a == d,
            a > 0real,
    ;
    lemma_sizes(amount(delta), 0real);
    lemma_sizes(r, 0real);
    lemma_div_error(delta.abs(), all);
    crate::signs::lemma_abs_sign(delta);
    let q = delta.abs() / all;
    assert(amount(q) >= 0real) by {
        reveal(Binary64::spec_euclidean_or_real_div);
        assert(!q.negative());
        lemma_amount_order(q, Binary64::zero());
    }
    lemma_amount_order(q, Binary64::one());
    assert(used(delta, all) == q || used(delta, all) == Binary64::one());
}

/// What a line uses of its capacity is nearly all that it is off by.
proof fn lemma_little_left(delta: Binary64, all: Binary64, r: real)
    requires
        delta.is_finite(),
        all.is_finite(),
        0real <= r <= 1real,
        1real / 1000000real <= amount(all) <= 1000000000000real,
        r * amount(all) == size(amount(delta)),
        size(amount(delta)) <= 1000000real,
    ensures
        ({
            let left = delta - js_sign(delta) * used(delta, all) * all;
            left.is_finite() && size(amount(left)) <= 1real / 100000000real
        }),
{
    lemma_unit();
    lemma_reach();
    lemma_tiny(1real);
    lemma_amount_zero();
    lemma_used_near(delta, all, r);
    lemma_one();
    let ratio = used(delta, all);
    let share = js_sign(delta) * ratio;
    let (d, a, f) = (amount(delta), amount(all), amount(ratio));
    let t = tiny();
    lemma_tiny(a);
    lemma_amount_order(delta, Binary64::zero());
    let fa = f * a;
    assert(near(fa, size(d), ulp() * size(d) + t * a)) by (nonlinear_arith)
        requires
            near(f, r, ulp() * r + t),
            r * a == size(d),
            fa == f * a,
            a > 0real,
    ;
    lemma_sizes(d, 0real);
    let s = amount(share);
    reveal(Binary64::spec_neg);
    assert(share.is_finite() && near(s * a, d, ulp() * size(d) + t * a)) by {
        if delta.gt(Binary64::zero()) {
            lemma_mul_one(Binary64::one(), ratio);
            assert(share.value() == ratio.value());
            reveal(size);
        } else if delta.lt(Binary64::zero()) {
            lemma_opposite(ratio);
            assert((-f) * a == -fa) by (nonlinear_arith)
                requires
                    fa == f * a,
            ;
            reveal(size);
        } else {
            assert(d == 0real);
            assert(delta.mag() == 0);
            lemma_nothing(delta, ratio);
            assert(s * a == 0real) by (nonlinear_arith)
                requires
                    s == 0real,
            ;
            reveal(size);
        }
    }
    let sa = s * a;
    lemma_sizes(sa, 0real);
    lemma_near(sa, d, ulp() * size(d) + t * a);
    lemma_mul_error(share, all);
    let taken = share * all;
    lemma_near(amount(taken), sa, ulp() * size(sa) + t);
    lemma_sizes(d, amount(taken));
    lemma_sizes(d - amount(taken), 0real);
    lemma_sub_error(delta, taken);
    let left = amount(delta - taken);
    lemma_sizes(left, 0real);
    assert(-(1real / 1000000000real) <= d - amount(taken) <= 1real / 1000000000real);
    assert(size(d - amount(taken)) <= 1real / 1000000000real) by {
        reveal(size);
    }
    reveal(size);
}

/// The parts of a cost add up.
proof fn lemma_assembled(
    price: Binary64,
    factor: Binary64,
    failure: Binary64,
    p: real,
    f: real,
    g: real,
)
    requires
        price.is_finite(),
        factor.is_finite(),
        failure.is_finite(),
        near(amount(price), p, 1real / 1000000real),
        amount(factor) == f,
        0real <= p <= 100000real,
        0real <= f <= 1000000real,
        near(amount(failure), g, 1real / 1000000real + g / 1000000000real),
        0real <= g <= 1000000000000real,
    ensures
        ({
            let cost = Binary64::one() + price * factor + failure + Binary64::zero();
            &&& cost.is_finite()
            &&& near(
                amount(cost),
                1real + p * f + g,
                1real / 1000real + f / 100000real + g / 100000000real,
            )
        }),
{
    lemma_unit();
    lemma_reach();
    lemma_tiny(1real);
    lemma_amount_zero();
    lemma_amount_one();
    lemma_one();
    let d = 1real / 1000000real;
    assert(p * 0real == 0real && d * 0real == 0real) by (nonlinear_arith);
    let pf = p * f;
    assert(0real <= pf <= 100000000000real && 0real <= f * d <= 1real && f * d == f / 1000000real)
        by (nonlinear_arith)
        requires
            pf == p * f,
            0real <= p <= 100000real,
            0real <= f <= 1000000real,
            d == 1real / 1000000real,
    ;
    lemma_product_near(price, p, d, factor, f, 0real);
    let part = amount(price * factor);
    assert(near(part, pf, f / 500000real + 1real / 10000real));
    lemma_sizes(1real + part, 0real);
    lemma_add_error(Binary64::one(), price * factor);
    let first = amount(Binary64::one() + price * factor);
    lemma_sizes(first + amount(failure), 0real);
    lemma_add_error(Binary64::one() + price * factor, failure);
    lemma_exact_sum(Binary64::one() + price * factor + failure, Binary64::zero());
}

/// What a line has to open by, or to close by where it is below zero.
pub open spec fn off_by(x: Extent, width: Binary64) -> Binary64 {
    width + x.hanging + x.opening - x.natural
}

/// What the spaces and letters of a line can give, opening or closing.
pub open spec fn flexibility(x: Extent, space: Binary64, o: Options, delta: Binary64) -> Binary64 {
    if delta.ge(Binary64::zero()) {
        Binary64::from_count(x.gaps) * space * o.stretch + x.chars * o.tracking
    } else {
        Binary64::from_count(x.gaps) * space * o.shrink + x.chars * o.tracking
    }
}

/// A strict line that is off by `r` times its flexibility, at most all of it,
/// costs one and a hundred times the cube of `r`, and that times the compression
/// penalty where it is closed.
pub proof fn law_strict_strain_is_cubic(
    start: usize,
    end: usize,
    x: Extent,
    space: Binary64,
    width: Binary64,
    o: Options,
    e: bool,
    r: real,
)
    requires
        start < end,
        !x.last,
        o.mode == Mode::Strict,
        off_by(x, width).is_finite(),
        !(e && off_by(x, width).gt(Binary64::zero())),
        flexibility(x, space, o, off_by(x, width)).is_finite(),
        1real / 1000000real <= amount(flexibility(x, space, o, off_by(x, width))),
        amount(flexibility(x, space, o, off_by(x, width))) <= 1000000000000real,
        0real <= r <= 1real,
        r * amount(flexibility(x, space, o, off_by(x, width))) == size(amount(off_by(x, width))),
        size(amount(off_by(x, width))) <= 1000000real,
        o.compression_penalty.is_finite(),
        0real <= amount(o.compression_penalty) <= 1000000real,
    ensures
        ({
            let cost = fitted(start, end, x, space, width, o, e).cost;
            let factor = if amount(off_by(x, width)) < 0real {
                amount(o.compression_penalty)
            } else {
                1real
            };
            &&& cost.is_finite()
            &&& near(
                amount(cost),
                1real + (100real * (r * r * r)) * factor,
                1real / 1000real + factor / 100000real,
            )
        }),
{
    let delta = shortfall(x, width);
    let all = capacity(x, space, delta, o);
    assert(delta == off_by(x, width));
    assert(all == flexibility(x, space, o, delta));
    lemma_unit();
    lemma_reach();
    lemma_tiny(1real);
    lemma_amount_zero();
    lemma_amount_one();
    lemma_one();
    lemma_amount_order(delta, Binary64::zero());
    lemma_used_near(delta, all, r);
    lemma_little_left(delta, all, r);
    let ratio = used(delta, all);
    let line = preferred(start, end, x, space, width, o);
    lemma_exact(100);
    let hundred = Binary64::ratio(100, 1);
    lemma_cube_near(ratio, r);
    let rr = r * r;
    let r3 = rr * r;
    assert(0real <= rr <= 1real && 0real <= r3 <= 1real) by (nonlinear_arith)
        requires
            rr == r * r,
            r3 == rr * r,
            0real <= r <= 1real,
    ;
    let d = 1real / 1000000000real;
    assert(r3 * 0real == 0real && d * 0real == 0real) by (nonlinear_arith);
    lemma_product_near(cube(ratio), r3, d, hundred, 100real, 0real);
    let price = strain(line, x, space, o, e);
    assert(price == ratio * ratio * ratio * hundred);
    assert(r3 * 100real == 100real * r3);
    let factor = if delta.lt(Binary64::zero()) {
        o.compression_penalty
    } else {
        Binary64::one()
    };
    let slight = Binary64::ratio(1, 100);
    lemma_ratio_error(1, 100);
    assert(1u64 as real == 1real && 100u64 as real == 100real);
    assert(line.residual == delta - js_sign(delta) * ratio * all);
    lemma_amount_abs(line.residual);
    lemma_amount_order(slight, line.residual.abs());
    assert(failure_cost(line.residual, o.mode) == Binary64::zero());
    assert(ending_cost(x, space, width, o) == Binary64::zero());
    assert(0real / 1000000000real == 0real);
    lemma_assembled(price, factor, Binary64::zero(), 100real * r3, amount(factor), 0real);
    let done = finished(line, space, o);
    assert(done == line);
}

/// All of a capacity is used where more is asked for.
proof fn lemma_all_used(delta: Binary64, all: Binary64)
    requires
        delta.is_finite(),
        all.is_finite(),
        0real < amount(all) <= size(amount(delta)),
    ensures
        used(delta, all) == Binary64::one(),
{
    lemma_amount_zero();
    lemma_one();
    lemma_zero();
    lemma_amount_order(all, Binary64::zero());
    lemma_amount_abs(delta);
    lemma_amount_abs(all);
    lemma_sizes(amount(all), 0real);
    assert(size(amount(all)) == amount(all)) by {
        reveal(size);
    }
    lemma_amount_order(all.abs(), delta.abs());
    reveal(Binary64::spec_abs);
    assert(all.mag() <= delta.mag() && all.mag() > 0);
    lemma_self_share(all);
    lemma_div_sizes(all, delta.abs(), all);
    reveal(Binary64::spec_euclidean_or_real_div);
}

/// A strict line that is off by more than its flexibility leaves the rest over.
/// It costs one, a hundred for its strain (times the compression penalty where
/// it is closed), ten thousand, and a hundred times the square of what is left
/// over.
pub proof fn law_strict_overflow_is_quadratic(
    start: usize,
    end: usize,
    x: Extent,
    space: Binary64,
    width: Binary64,
    o: Options,
    e: bool,
)
    requires
        start < end,
        !x.last,
        o.mode == Mode::Strict,
        off_by(x, width).is_finite(),
        !(e && off_by(x, width).gt(Binary64::zero())),
        flexibility(x, space, o, off_by(x, width)).is_finite(),
        1real / 1000000real <= amount(flexibility(x, space, o, off_by(x, width))),
        size(amount(off_by(x, width))) >= amount(flexibility(x, space, o, off_by(x, width)))
            + 1real / 50real,
        size(amount(off_by(x, width))) <= 10000real,
        o.compression_penalty.is_finite(),
        0real <= amount(o.compression_penalty) <= 1000000real,
    ensures
        ({
            let line = fitted(start, end, x, space, width, o, e);
            let rest = size(amount(off_by(x, width))) - amount(
                flexibility(x, space, o, off_by(x, width)),
            );
            let closed = amount(off_by(x, width)) < 0real;
            let factor = if closed {
                amount(o.compression_penalty)
            } else {
                1real
            };
            let failure = 10000real + 100real * (rest * rest);
            &&& line.residual.is_finite()
            &&& near(
                amount(line.residual),
                if closed {
                    -rest
                } else {
                    rest
                },
                1real / 1000000real,
            )
            &&& line.cost.is_finite()
            &&& near(
                amount(line.cost),
                1real + 100real * factor + failure,
                1real / 100real + factor / 100000real + failure / 100000000real,
            )
        }),
{
    let delta = shortfall(x, width);
    let all = capacity(x, space, delta, o);
    assert(delta == off_by(x, width));
    assert(all == flexibility(x, space, o, delta));
    lemma_unit();
    lemma_reach();
    lemma_tiny(1real);
    lemma_amount_zero();
    lemma_amount_one();
    lemma_one();
    lemma_amount_order(delta, Binary64::zero());
    let (d, a) = (amount(delta), amount(all));
    lemma_sizes(d, 0real);
    lemma_all_used(delta, all);
    let one = Binary64::one();
    let ratio = used(delta, all);
    let share = js_sign(delta) * ratio;
    let closed = d < 0real;
    let rest = size(d) - a;
    let line = preferred(start, end, x, space, width, o);
    assert(size(d) == if closed {
        -d
    } else {
        d
    }) by {
        reveal(size);
    }
    reveal(Binary64::spec_neg);
    assert((share * all).is_finite() && amount(share * all) == if closed {
        -a
    } else {
        a
    }) by {
        if closed {
            lemma_mul_one(-one, one);
            assert(share == -one);
            lemma_opposite(all);
        } else {
            lemma_mul_one(one, one);
            assert(share == one);
            lemma_mul_one(one, all);
            assert((one * all).value() == all.value());
        }
    }
    let exact = if closed {
        -rest
    } else {
        rest
    };
    assert(d - amount(share * all) == exact);
    lemma_sizes(exact, 0real);
    assert(size(exact) == rest) by {
        reveal(size);
    }
    lemma_sub_error(delta, share * all);
    let left = line.residual;
    assert(left == delta - share * all);
    let l = amount(left);
    assert(near(l, exact, ulp() * rest));
    // The price of the strain.
    lemma_exact(100);
    lemma_exact(10_000);
    let hundred = Binary64::ratio(100, 1);
    let price = strain(line, x, space, o, e);
    assert(price == one * one * one * hundred);
    lemma_mul_one(one, one);
    assert(one * one == one);
    lemma_mul_one(one, hundred);
    lemma_ratio_sign(100, 1);
    assert(price.value() == hundred.value());
    let factor = if delta.lt(Binary64::zero()) {
        o.compression_penalty
    } else {
        one
    };
    // The price of what is left over.
    let slight = Binary64::ratio(1, 100);
    lemma_ratio_error(1, 100);
    assert(1u64 as real == 1real && 100u64 as real == 100real);
    lemma_amount_abs(left);
    lemma_sizes(l, 0real);
    assert(size(l) > 15real / 1000real) by {
        reveal(size);
    }
    lemma_amount_order(slight, left.abs());
    let failure = failure_cost(left, o.mode);
    assert(failure == Binary64::ratio(10_000, 1) + left * left * hundred);
    let ll = l * l;
    let xx = rest * rest;
    assert(near(ll, xx, 1real / 1000000real) && 0real <= ll && 0real <= xx <= 100000000real)
        by (nonlinear_arith)
        requires
            near(l, exact, ulp() * rest),
            exact == rest || exact == -rest,
            0real <= rest <= 10000real,
            ll == l * l,
            xx == rest * rest,
    ;
    lemma_sizes(ll, 0real);
    lemma_mul_error(left, left);
    let two = 2real / 1000000real;
    assert(near(amount(left * left), xx, two));
    assert(xx * 0real == 0real && two * 0real == 0real) by (nonlinear_arith);
    lemma_product_near(left * left, xx, two, hundred, 100real, 0real);
    let squares = left * left * hundred;
    assert(near(amount(squares), 100real * xx, 1real / 1000real));
    lemma_sizes(10000real + amount(squares), 0real);
    lemma_add_error(Binary64::ratio(10_000, 1), squares);
    let g = 10000real + 100real * xx;
    assert(ending_cost(x, space, width, o) == Binary64::zero());
    lemma_assembled_more(price, factor, failure, amount(factor), g);
    let done = finished(line, space, o);
    assert(done == line);
}

/// The parts of the cost of an overflow add up.
proof fn lemma_assembled_more(
    price: Binary64,
    factor: Binary64,
    failure: Binary64,
    f: real,
    g: real,
)
    requires
        price.is_finite(),
        factor.is_finite(),
        failure.is_finite(),
        amount(price) == 100real,
        amount(factor) == f,
        0real <= f <= 1000000real,
        near(amount(failure), g, 2real / 1000real),
        10000real <= g <= 20000000000real,
    ensures
        ({
            let cost = Binary64::one() + price * factor + failure + Binary64::zero();
            &&& cost.is_finite()
            &&& near(
                amount(cost),
                1real + 100real * f + g,
                1real / 100real + f / 100000real + g / 100000000real,
            )
        }),
{
    lemma_unit();
    lemma_reach();
    lemma_tiny(1real);
    lemma_amount_zero();
    lemma_amount_one();
    lemma_one();
    let z = amount(price) * f;
    assert(z == 100real * f);
    lemma_sizes(z, 0real);
    lemma_mul_error(price, factor);
    let part = amount(price * factor);
    lemma_sizes(1real + part, 0real);
    lemma_add_error(Binary64::one(), price * factor);
    let first = amount(Binary64::one() + price * factor);
    lemma_sizes(first + amount(failure), 0real);
    lemma_add_error(Binary64::one() + price * factor, failure);
    lemma_exact_sum(Binary64::one() + price * factor + failure, Binary64::zero());
}

/// A cube of what is roughly one or less.
proof fn lemma_cube_rough(q: Binary64, r: real)
    requires
        q.is_finite(),
        near(amount(q), r, 1real / 500000real),
        0real <= r <= 1real,
    ensures
        cube(q).is_finite(),
        near(amount(cube(q)), r * r * r, 1real / 100000real),
{
    lemma_reach();
    let d = 1real / 500000real;
    let rr = r * r;
    assert(0real <= rr <= 1real && 0real <= rr * r <= 1real && 0real <= r * d <= d && 0real <= d * d
        <= d / 100000real) by (nonlinear_arith)
        requires
            rr == r * r,
            0real <= r <= 1real,
            d == 1real / 500000real,
    ;
    lemma_product_near(q, r, d, q, r, d);
    let e = 41real / 10000000real;
    assert(near(amount(q * q), rr, e));
    assert(0real <= rr * d <= d && 0real <= r * e <= e && 0real <= e * d <= d / 100000real)
        by (nonlinear_arith)
        requires
            0real <= r <= 1real,
            0real <= rr <= 1real,
            d == 1real / 500000real,
            e == 41real / 10000000real,
    ;
    lemma_product_near(q * q, rr, e, q, r, d);
}

/// A balanced line that is opened leaves too little over to count.
proof fn lemma_filled(
    start: usize,
    end: usize,
    x: Extent,
    space: Binary64,
    width: Binary64,
    o: Options,
)
    requires
        start < end,
        x.gaps == end - start - 1,
        x.gaps > 0,
        accountable(x, space, width, o),
        measure_of(x, width) <= 1000000000real,
        o.mode == Mode::Balanced,
        !shortfall(x, width).lt(Binary64::zero()),
    ensures
        ({
            let rest = finished(preferred(start, end, x, space, width, o), space, o).residual;
            &&& rest.is_finite()
            &&& !rest.abs().gt(Binary64::ratio(1, 100))
            &&& failure_cost(rest, o.mode) == Binary64::zero()
        }),
{
    lemma_unit();
    lemma_tiny(1real);
    law_opened_line_ends_at_measure(start, end, x, space, width, o, true);
    let line = preferred(start, end, x, space, width, o);
    let most = size(amount(shortfall(x, width)));
    lemma_reach();
    lemma_shortfall_error(x, width);
    lemma_preferred_accounts(start, end, x, space, width, o);
    lemma_opened(start, end, x, space, width, o);
    lemma_sizes(amount(shortfall(x, width)), 0real);
    let m = 3real * most + 4real * speck();
    lemma_completed(line, space, o, m);
    let rest = finished(line, space, o).residual;
    lemma_ratio_error(1, 100);
    assert(1u64 as real == 1real && 100u64 as real == 100real);
    lemma_amount_abs(rest);
    lemma_sizes(amount(rest), 0real);
    lemma_amount_order(Binary64::ratio(1, 100), rest.abs());
}

/// A balanced line that is opened by `r` times its flexibility, at most all of
/// it, costs one and a hundred times the cube of `r` in ordinary fitting.
pub proof fn law_balanced_strain_is_cubic(
    start: usize,
    end: usize,
    x: Extent,
    space: Binary64,
    width: Binary64,
    o: Options,
    r: real,
)
    requires
        start < end,
        x.gaps == end - start - 1,
        x.gaps > 0,
        !x.last,
        accountable(x, space, width, o),
        measure_of(x, width) <= 1000000000real,
        o.mode == Mode::Balanced,
        0real <= amount(off_by(x, width)) <= 1000000real,
        flexibility(x, space, o, off_by(x, width)).is_finite(),
        1real / 1000000real <= amount(flexibility(x, space, o, off_by(x, width))),
        amount(flexibility(x, space, o, off_by(x, width))) <= 1000000000000real,
        amount(space) >= 1real / 100real,
        (Binary64::from_count(x.gaps) * space).is_finite(),
        amount(Binary64::from_count(x.gaps) * space) <= 1000000000000real,
        0real <= r <= 1real,
        r * amount(flexibility(x, space, o, off_by(x, width))) == amount(off_by(x, width)),
    ensures
        ({
            let cost = fitted(start, end, x, space, width, o, false).cost;
            cost.is_finite() && near(
                amount(cost),
                1real + 100real * (r * r * r),
                1real / 100real,
            )
        }),
{
    let delta = shortfall(x, width);
    let all = capacity(x, space, delta, o);
    assert(delta == off_by(x, width));
    assert(all == flexibility(x, space, o, delta));
    lemma_unit();
    lemma_reach();
    lemma_tiny(1real);
    lemma_amount_zero();
    lemma_amount_one();
    lemma_one();
    lemma_shortfall_error(x, width);
    lemma_amount_order(delta, Binary64::zero());
    let (d, a) = (amount(delta), amount(all));
    lemma_sizes(d, 0real);
    assert(size(d) == d) by {
        reveal(size);
    }
    lemma_used_near(delta, all, r);
    lemma_little_left(delta, all, r);
    lemma_filled(start, end, x, space, width, o);
    let ratio = used(delta, all);
    let line = preferred(start, end, x, space, width, o);
    let left = line.residual.abs();
    lemma_amount_abs(line.residual);
    // What little is left strains the line hardly more.
    let wide = Binary64::from_count(x.gaps) * space;
    let unit = js_max(all, js_max(wide, space));
    lemma_amount_order(all, space);
    lemma_amount_order(wide, space);
    lemma_amount_order(all, wide);
    assert(unit.is_finite() && amount(unit) >= 1real / 100real);
    let (l, u) = (amount(left), amount(unit));
    lemma_sizes(amount(line.residual), 0real);
    let q = l / u;
    assert(0real <= q <= 1real / 1000000real) by (nonlinear_arith)
        requires
            q == l / u,
            0real <= l <= 1real / 100000000real,
            u >= 1real / 100real,
    ;
    lemma_sizes(q, 0real);
    lemma_div_error(left, unit);
    let extra = left / unit;
    lemma_sizes(amount(ratio) + amount(extra), 0real);
    lemma_add_error(ratio, extra);
    let sum = ratio + extra;
    assert(near(amount(sum), r, 1real / 500000real));
    lemma_cube_rough(sum, r);
    let rr = r * r;
    let r3 = rr * r;
    assert(0real <= rr <= 1real && 0real <= r3 <= 1real) by (nonlinear_arith)
        requires
            rr == r * r,
            r3 == rr * r,
            0real <= r <= 1real,
    ;
    lemma_exact(100);
    let hundred = Binary64::ratio(100, 1);
    let e = 1real / 100000real;
    assert(0real * r3 == 0real && 0real * e == 0real && r3 * 0real == 0real) by (nonlinear_arith);
    lemma_product_near(hundred, 100real, 0real, cube(sum), r3, e);
    let price = strain(line, x, space, o, false);
    assert(price == hundred * cube(sum));
    assert(near(amount(price), 100real * r3, 2real / 1000real));
    assert(d <= a) by (nonlinear_arith)
        requires
            r * a == d,
            0real <= r <= 1real,
            a >= 0real,
    ;
    lemma_kept(delta, all);
    let done = finished(line, space, o);
    assert(!given_up(done.residual, x, space, width, o, false));
    assert(ending_cost(x, space, width, o) == Binary64::zero());
    lemma_plain_cost(price, 100real * r3);
}

/// A line within its flexibility is not given up.
proof fn lemma_kept(delta: Binary64, all: Binary64)
    requires
        delta.is_finite(),
        all.is_finite(),
        0real <= amount(delta) <= amount(all) <= 1000000000000real,
    ensures
        !delta.gt(
            all * Binary64::ratio(12_599_210_498_948_732, 10_000_000_000_000_000)
                + Binary64::ratio(1, 100),
        ),
{
    lemma_unit();
    lemma_reach();
    lemma_tiny(1real);
    let root = Binary64::ratio(12_599_210_498_948_732, 10_000_000_000_000_000);
    let slight = Binary64::ratio(1, 100);
    lemma_ratio_error(12_599_210_498_948_732, 10_000_000_000_000_000);
    lemma_ratio_error(1, 100);
    assert(1u64 as real == 1real && 100u64 as real == 100real);
    let (n, m) = (12599210498948732real, 10000000000000000real);
    assert(12_599_210_498_948_732u64 as real == n && 10_000_000_000_000_000u64 as real == m);
    let (a, k) = (amount(all), amount(root));
    assert(1real <= k <= 2real);
    let ak = a * k;
    assert(a <= ak <= 2real * a) by (nonlinear_arith)
        requires
            ak == a * k,
            1real <= k <= 2real,
            a >= 0real,
    ;
    lemma_sizes(ak, 0real);
    lemma_mul_error(all, root);
    let bar = all * root;
    lemma_sizes(amount(bar) + amount(slight), 0real);
    lemma_add_error(bar, slight);
    lemma_amount_order(bar + slight, delta);
}

/// A cost that is one and a price.
proof fn lemma_plain_cost(price: Binary64, p: real)
    requires
        price.is_finite(),
        near(amount(price), p, 2real / 1000real),
        0real <= p <= 1000000real,
    ensures
        ({
            let one = Binary64::one();
            let zero = Binary64::zero();
            let cost = one + price * one + zero + zero;
            cost.is_finite() && near(amount(cost), 1real + p, 1real / 100real)
        }),
{
    lemma_unit();
    lemma_reach();
    lemma_amount_one();
    lemma_one();
    let one = Binary64::one();
    lemma_mul_one(one, price);
    let part = price * one;
    assert(part.value() == price.value());
    lemma_sizes(1real + amount(part), 0real);
    lemma_add_error(one, part);
    lemma_exact_sum(one + part, Binary64::zero());
    lemma_exact_sum(one + part + Binary64::zero(), Binary64::zero());
}

/// In an emergency a balanced line that is opened costs one and a hundred times
/// the cube of what it opens by, over its flexibility and the emergency stretch
/// of its measure together.
pub proof fn law_emergency_strain_is_cubic(
    start: usize,
    end: usize,
    x: Extent,
    space: Binary64,
    width: Binary64,
    o: Options,
    r: real,
)
    requires
        start < end,
        x.gaps == end - start - 1,
        x.gaps > 0,
        !x.last,
        accountable(x, space, width, o),
        measure_of(x, width) <= 1000000000real,
        o.mode == Mode::Balanced,
        0real < amount(off_by(x, width)) <= 1000000real,
        flexibility(x, space, o, off_by(x, width)).is_finite(),
        1real / 1000real <= amount(flexibility(x, space, o, off_by(x, width))),
        amount(flexibility(x, space, o, off_by(x, width))) <= 1000000000000real,
        o.emergency_stretch.is_finite(),
        0real <= amount(width),
        0real <= amount(o.emergency_stretch) <= 1000real,
        0real <= r <= 5real,
        r * (amount(flexibility(x, space, o, off_by(x, width))) + amount(width) * amount(
            o.emergency_stretch,
        )) == amount(off_by(x, width)),
    ensures
        ({
            let cost = fitted(start, end, x, space, width, o, true).cost;
            cost.is_finite() && near(
                amount(cost),
                1real + 100real * (r * r * r),
                1real / 100real,
            )
        }),
{
    let delta = shortfall(x, width);
    let all = capacity(x, space, delta, o);
    assert(delta == off_by(x, width));
    lemma_shortfall_error(x, width);
    lemma_unit();
    lemma_reach();
    lemma_tiny(1real);
    lemma_amount_zero();
    lemma_amount_one();
    lemma_one();
    lemma_amount_order(delta, Binary64::zero());
    lemma_amount_order(Binary64::zero(), delta);
    assert(all == flexibility(x, space, o, delta));
    lemma_filled(start, end, x, space, width, o);
    lemma_sizes(amount(width), 0real);
    lemma_sizes(amount(x.hanging), 0real);
    lemma_sizes(amount(x.opening), 0real);
    lemma_sizes(amount(x.natural), 0real);
    let (d, a, w, s) = (amount(delta), amount(all), amount(width), amount(o.emergency_stretch));
    let ws = w * s;
    assert(0real <= ws <= 1000000000000real) by (nonlinear_arith)
        requires
            ws == w * s,
            0real <= w <= 1000000000real,
            0real <= s <= 1000real,
    ;
    lemma_sizes(ws, 0real);
    lemma_mul_error(width, o.emergency_stretch);
    let more = width * o.emergency_stretch;
    lemma_near(amount(more), ws, ulp() * ws + tiny());
    lemma_sizes(a + amount(more), 0real);
    lemma_add_error(all, more);
    let room = all + more;
    let (t, full) = (amount(room), a + ws);
    assert(near(t, full, full / 100000000000000real));
    let q = d / t;
    assert(near(q, r, 1real / 10000000000000real)) by (nonlinear_arith)
        requires
            q == d / t,
            r * full == d,
            0real <= r <= 5real,
            full >= 1real / 1000real,
            near(t, full, full / 100000000000000real),
    ;
    lemma_sizes(q, 0real);
    assert(size(q) <= 6real) by {
        reveal(size);
    }
    lemma_div_error(delta, room);
    lemma_cube_near(delta / room, r);
    let rr = r * r;
    let r3 = rr * r;
    assert(0real <= rr <= 25real && 0real <= r3 <= 125real) by (nonlinear_arith)
        requires
            rr == r * r,
            r3 == rr * r,
            0real <= r <= 5real,
    ;
    lemma_exact(100);
    let hundred = Binary64::ratio(100, 1);
    let e = 1real / 1000000000real;
    assert(0real * r3 == 0real && 0real * e == 0real && r3 * 0real == 0real) by (nonlinear_arith);
    lemma_product_near(hundred, 100real, 0real, cube(delta / room), r3, e);
    let line = preferred(start, end, x, space, width, o);
    let price = strain(line, x, space, o, true);
    assert(price == hundred * cube(delta / room));
    let done = finished(line, space, o);
    assert(!given_up(done.residual, x, space, width, o, true));
    assert(ending_cost(x, space, width, o) == Binary64::zero());
    lemma_plain_cost(price, 100real * r3);
}

/// What is left over costs a base price and a multiple of its square: a million
/// and ten thousand times it in a balanced policy, ten thousand and a hundred
/// times it in a strict one.
pub proof fn law_overflow_prices(residual: Binary64, mode: Mode)
    requires
        residual.is_finite(),
        size(amount(residual)) <= 10000real,
    ensures
        ({
            let r = amount(residual);
            let cost = overflow_cost(residual, mode);
            let exact = match mode {
                Mode::Balanced => 1000000real + 10000real * (r * r),
                Mode::Strict => 10000real + 100real * (r * r),
            };
            cost.is_finite() && near(amount(cost), exact, 1real / 10real + exact / 1000000000real)
        }),
{
    lemma_unit();
    lemma_reach();
    lemma_tiny(1real);
    lemma_exact(1_000_000);
    lemma_exact(10_000);
    lemma_exact(100);
    let r = amount(residual);
    let rr = r * r;
    lemma_sizes(r, 0real);
    assert(0real <= rr <= 100000000real) by (nonlinear_arith)
        requires
            rr == r * r,
            -10000real <= r <= 10000real,
    ;
    lemma_sizes(rr, 0real);
    lemma_mul_error(residual, residual);
    let d = 1real / 1000000real;
    assert(near(amount(residual * residual), rr, d));
    let (scale, base, k, b) = match mode {
        Mode::Balanced => (
            Binary64::ratio(10_000, 1),
            Binary64::ratio(1_000_000, 1),
            10000real,
            1000000real,
        ),
        Mode::Strict => (Binary64::ratio(100, 1), Binary64::ratio(10_000, 1), 100real, 10000real),
    };
    assert(rr * 0real == 0real && d * 0real == 0real) by (nonlinear_arith);
    let rk = rr * k;
    assert(0real <= rk <= 1000000000000real && 0real <= k * d <= 1real / 100real && rk == k * rr)
        by (nonlinear_arith)
        requires
            rk == rr * k,
            0real <= rr <= 100000000real,
            k == 10000real || k == 100real,
            d == 1real / 1000000real,
    ;
    lemma_product_near(residual * residual, rr, d, scale, k, 0real);
    let part = amount(residual * residual * scale);
    lemma_sizes(b + part, 0real);
    lemma_add_error(base, residual * residual * scale);
}

/// Spaces and letters bear the strain of a strict line alike: where it is off by
/// `r` times its flexibility, its tracking is `r` times the policy's, and each of
/// its spaces changes by `r` times what the policy lets a space gain or lose.
pub proof fn law_strain_is_borne_alike(
    start: usize,
    end: usize,
    x: Extent,
    space: Binary64,
    width: Binary64,
    o: Options,
    e: bool,
    r: real,
)
    requires
        start < end,
        x.gaps == end - start - 1,
        0 < x.gaps < 1_000_000,
        !x.last,
        o.mode == Mode::Strict,
        off_by(x, width).is_finite(),
        flexibility(x, space, o, off_by(x, width)).is_finite(),
        1real / 1000000real <= amount(flexibility(x, space, o, off_by(x, width))),
        amount(flexibility(x, space, o, off_by(x, width))) <= 1000000000000real,
        0real <= r <= 1real,
        r * amount(flexibility(x, space, o, off_by(x, width))) == size(amount(off_by(x, width))),
        space.is_finite() && o.stretch.is_finite() && o.shrink.is_finite()
            && o.tracking.is_finite(),
        0real <= amount(space) <= 1000real,
        0real <= amount(o.stretch) <= 1000real,
        0real <= amount(o.shrink) <= 1000real,
        0real <= amount(o.tracking) <= 1000real,
    ensures
        ({
            let line = fitted(start, end, x, space, width, o, e);
            let d = amount(off_by(x, width));
            let most = amount(space) * (if d >= 0real {
                amount(o.stretch)
            } else {
                amount(o.shrink)
            });
            &&& line.tracking.is_finite() && line.word_spacing.is_finite()
            &&& d >= 0real ==> near(
                amount(line.tracking),
                r * amount(o.tracking),
                1real / 1000000real,
            ) && near(amount(line.word_spacing), r * most, 1real / 1000real)
            &&& d < 0real ==> near(
                amount(line.tracking),
                -(r * amount(o.tracking)),
                1real / 1000000real,
            ) && near(amount(line.word_spacing), -(r * most), 1real / 1000real)
        }),
{
    let delta = shortfall(x, width);
    let all = capacity(x, space, delta, o);
    assert(delta == off_by(x, width));
    assert(all == flexibility(x, space, o, delta));
    lemma_unit();
    lemma_reach();
    lemma_tiny(1real);
    lemma_amount_zero();
    lemma_amount_one();
    lemma_one();
    lemma_amount_order(delta, Binary64::zero());
    lemma_amount_order(Binary64::zero(), delta);
    lemma_used_near(delta, all, r);
    let ratio = used(delta, all);
    let share = js_sign(delta) * ratio;
    let line = preferred(start, end, x, space, width, o);
    let (d, f) = (amount(delta), amount(ratio));
    reveal(Binary64::spec_neg);
    assert(share.is_finite() && (d > 0real ==> amount(share) == f) && (d < 0real ==> amount(share)
        == -f) && (d == 0real ==> amount(share) == 0real)) by {
        if d > 0real {
            lemma_mul_one(Binary64::one(), ratio);
            assert(share.value() == ratio.value());
        } else if d < 0real {
            lemma_opposite(ratio);
        } else {
            assert(delta.mag() == 0) by {
                lemma_amount_order(delta, Binary64::zero());
            }
            lemma_nothing(delta, ratio);
        }
    }
    let flex = amount(all);
    assert(d == 0real ==> r == 0real) by {
        reveal(size);
        assert(size(d) == 0real ==> r == 0real) by (nonlinear_arith)
            requires
                r * flex == size(d),
                flex >= 1real / 1000000real,
        ;
    }
    let s = amount(share);
    let way: real = if d < 0real {
        -1real
    } else {
        1real
    };
    let z = 1real / 1000000000000real;
    assert(near(s, way * r, z));
    // The letters.
    let t = amount(o.tracking);
    lemma_borne(share, o.tracking, way, r, t, z);
    assert(line.tracking == share * o.tracking);
    // The spaces.
    let count = Binary64::from_count(x.gaps);
    lemma_count(x.gaps);
    let factor = if delta.ge(Binary64::zero()) {
        o.stretch
    } else {
        o.shrink
    };
    let (g, sp, k) = (amount(count), amount(space), amount(factor));
    let gs = g * sp;
    let most = sp * k;
    assert(0real <= gs <= 1000000000real && 0real <= most <= 1000000real && gs * k == g * most
        && 0real <= gs * k <= 1000000000000real) by (nonlinear_arith)
        requires
            gs == g * sp,
            most == sp * k,
            0real <= g <= 1000000real,
            0real <= sp <= 1000real,
            0real <= k <= 1000real,
    ;
    assert(g * 0real == 0real && sp * 0real == 0real && 0real * 0real == 0real) by (nonlinear_arith);
    lemma_product_near(count, g, 0real, space, sp, 0real);
    let c = 1real / 5000000real;
    assert(near(amount(count * space), gs, c));
    assert(0real <= k * c <= 1real / 5000real && gs * 0real == 0real && c * 0real == 0real)
        by (nonlinear_arith)
        requires
            0real <= k <= 1000real,
            c == 1real / 5000000real,
    ;
    lemma_product_near(count * space, gs, c, factor, k, 0real);
    let budget = count * space * factor;
    lemma_budget_borne(share, budget, count, way, r, most, g);
    assert(line.word_spacing == share * budget / count);
    let done = finished(line, space, o);
    assert(done == line);
}

/// A signed share of something.
proof fn lemma_borne(share: Binary64, y: Binary64, way: real, r: real, t: real, z: real)
    requires
        share.is_finite(),
        y.is_finite(),
        way == 1real || way == -1real,
        near(amount(share), way * r, z),
        z == 1real / 1000000000000real,
        0real <= r <= 1real,
        amount(y) == t,
        0real <= t <= 1000real,
    ensures
        (share * y).is_finite(),
        near(amount(share * y), way * (r * t), 1real / 1000000real),
        way == 1real ==> near(amount(share * y), r * t, 1real / 1000000real),
        way == -1real ==> near(amount(share * y), -(r * t), 1real / 1000000real),
{
    lemma_unit();
    lemma_reach();
    lemma_tiny(1real);
    let s = amount(share);
    let st = s * t;
    let rt = r * t;
    let exact = if way == 1real {
        rt
    } else {
        -rt
    };
    assert(near(st, exact, 1real / 100000000real) && way * rt == exact && -2000real <= st <= 2000real)
        by (nonlinear_arith)
        requires
            near(s, way * r, z),
            z == 1real / 1000000000000real,
            way == 1real || way == -1real,
            st == s * t,
            rt == r * t,
            exact == (if way == 1real {
                rt
            } else {
                -rt
            }),
            0real <= t <= 1000real,
            0real <= r <= 1real,
    ;
    lemma_sizes(st, 0real);
    lemma_mul_error(share, y);
    assert(size(st) <= 2000real) by {
        reveal(size);
    }
}

/// A signed share of a budget, over its gaps.
proof fn lemma_budget_borne(
    share: Binary64,
    budget: Binary64,
    count: Binary64,
    way: real,
    r: real,
    most: real,
    g: real,
)
    requires
        share.is_finite(),
        budget.is_finite(),
        count.is_finite(),
        way == 1real || way == -1real,
        near(amount(share), way * r, 1real / 1000000000000real),
        0real <= r <= 1real,
        0real <= most <= 1000000real,
        amount(count) == g,
        1real <= g <= 1000000real,
        near(amount(budget), g * most, 1real / 2000real),
    ensures
        (share * budget / count).is_finite(),
        way == 1real ==> near(amount(share * budget / count), r * most, 1real / 1000real),
        way == -1real ==> near(amount(share * budget / count), -(r * most), 1real / 1000real),
{
    lemma_unit();
    lemma_reach();
    lemma_tiny(1real);
    let (s, b) = (amount(share), amount(budget));
    let gm = g * most;
    let (x, y) = (s - way * r, b - gm);
    let sb = s * b;
    let exact = way * r * gm;
    assert(sb - exact == s * y + x * gm) by (nonlinear_arith)
        requires
            x == s - way * r,
            y == b - gm,
            sb == s * b,
            exact == way * r * gm,
    ;
    assert(way * r == r || way * r == -r) by (nonlinear_arith)
        requires
            way == 1real || way == -1real,
    ;
    assert(-(1real / 1900real) <= s * y <= 1real / 1900real) by (nonlinear_arith)
        requires
            -(1real / 2000real) <= y <= 1real / 2000real,
            -(1real + 1real / 1000000real) <= s <= 1real + 1real / 1000000real,
    ;
    assert(0real <= gm <= g * 1000000real) by (nonlinear_arith)
        requires
            gm == g * most,
            0real <= most <= 1000000real,
            g >= 1real,
    ;
    assert(-(gm / 1000000000000real) <= x * gm <= gm / 1000000000000real) by (nonlinear_arith)
        requires
            -(1real / 1000000000000real) <= x <= 1real / 1000000000000real,
            gm >= 0real,
    ;
    assert(-gm <= exact <= gm) by (nonlinear_arith)
        requires
            exact == way * r * gm,
            way == 1real || way == -1real,
            0real <= r <= 1real,
            gm >= 0real,
    ;
    lemma_sizes(sb, 0real);
    assert(size(sb) <= 2real * gm + 1real) by {
        reveal(size);
    }
    lemma_mul_error(share, budget);
    let part = share * budget;
    let p = amount(part);
    assert(near(p, exact, 1real / 1800real + g / 100000real));
    let q = p / g;
    let rm = r * most;
    let goal = if way == 1real {
        rm
    } else {
        -rm
    };
    assert(exact == goal * g) by (nonlinear_arith)
        requires
            exact == way * r * gm,
            gm == g * most,
            rm == r * most,
            goal == (if way == 1real {
                rm
            } else {
                -rm
            }),
            way == 1real || way == -1real,
    ;
    assert(near(q, goal, 1real / 1800real + 1real / 100000real)) by (nonlinear_arith)
        requires
            q == p / g,
            near(p, exact, 1real / 1800real + g / 100000real),
            exact == goal * g,
            g >= 1real,
    ;
    assert(0real <= rm <= 1000000real) by (nonlinear_arith)
        requires
            rm == r * most,
            0real <= r <= 1real,
            0real <= most <= 1000000real,
    ;
    lemma_sizes(q, 0real);
    assert(size(q) <= 1000001real) by {
        reveal(size);
    }
    lemma_div_error(part, count);
}

/// A balanced line of one word that is closed by `r` times its flexibility, at
/// most all of it, costs one and a hundred times the cube of `r` times the
/// compression penalty.
pub proof fn law_balanced_closing_is_cubic(
    start: usize,
    end: usize,
    x: Extent,
    space: Binary64,
    width: Binary64,
    o: Options,
    e: bool,
    r: real,
)
    requires
        start + 1 == end,
        x.gaps == 0,
        !x.last,
        o.mode == Mode::Balanced,
        off_by(x, width).is_finite(),
        -1000000real <= amount(off_by(x, width)) < 0real,
        flexibility(x, space, o, off_by(x, width)).is_finite(),
        1real / 1000000real <= amount(flexibility(x, space, o, off_by(x, width))),
        amount(flexibility(x, space, o, off_by(x, width))) <= 1000000000000real,
        space.is_finite(),
        1real / 100real <= amount(space) <= 1000000real,
        0real <= r <= 1real,
        r * amount(flexibility(x, space, o, off_by(x, width))) == -amount(off_by(x, width)),
        o.compression_penalty.is_finite(),
        0real <= amount(o.compression_penalty) <= 1000real,
    ensures
        ({
            let cost = fitted(start, end, x, space, width, o, e).cost;
            let factor = amount(o.compression_penalty);
            cost.is_finite() && near(
                amount(cost),
                1real + (100real * (r * r * r)) * factor,
                1real / 100real + factor / 100real,
            )
        }),
{
    let delta = shortfall(x, width);
    let all = capacity(x, space, delta, o);
    assert(delta == off_by(x, width));
    lemma_unit();
    lemma_reach();
    lemma_tiny(1real);
    lemma_amount_zero();
    lemma_amount_one();
    lemma_one();
    lemma_amount_order(delta, Binary64::zero());
    lemma_amount_order(Binary64::zero(), delta);
    assert(all == flexibility(x, space, o, delta));
    let (d, a) = (amount(delta), amount(all));
    lemma_sizes(d, 0real);
    assert(size(d) == -d) by {
        reveal(size);
    }
    lemma_used_near(delta, all, r);
    lemma_little_left(delta, all, r);
    let ratio = used(delta, all);
    let line = preferred(start, end, x, space, width, o);
    assert(line.residual == delta - js_sign(delta) * ratio * all);
    let left = line.residual.abs();
    lemma_amount_abs(line.residual);
    let count = Binary64::from_count(0);
    lemma_count(0);
    let wide = count * space;
    let none = amount(count) * amount(space);
    assert(none == 0real) by (nonlinear_arith)
        requires
            none == amount(count) * amount(space),
            amount(count) == 0real,
    ;
    lemma_sizes(none, 0real);
    lemma_mul_error(count, space);
    let unit = js_max(all, js_max(wide, space));
    lemma_amount_order(all, space);
    lemma_amount_order(wide, space);
    lemma_amount_order(all, wide);
    assert(unit.is_finite() && amount(unit) >= 1real / 100real);
    let (l, u) = (amount(left), amount(unit));
    lemma_sizes(amount(line.residual), 0real);
    let q = l / u;
    assert(0real <= q <= 1real / 1000000real) by (nonlinear_arith)
        requires
            q == l / u,
            0real <= l <= 1real / 100000000real,
            u >= 1real / 100real,
    ;
    lemma_sizes(q, 0real);
    lemma_div_error(left, unit);
    let extra = left / unit;
    lemma_sizes(amount(ratio) + amount(extra), 0real);
    lemma_add_error(ratio, extra);
    let sum = ratio + extra;
    lemma_cube_rough(sum, r);
    let rr = r * r;
    let r3 = rr * r;
    assert(0real <= rr <= 1real && 0real <= r3 <= 1real) by (nonlinear_arith)
        requires
            rr == r * r,
            r3 == rr * r,
            0real <= r <= 1real,
    ;
    lemma_exact(100);
    let hundred = Binary64::ratio(100, 1);
    let h = 1real / 100000real;
    assert(0real * r3 == 0real && 0real * h == 0real && r3 * 0real == 0real) by (nonlinear_arith);
    lemma_product_near(hundred, 100real, 0real, cube(sum), r3, h);
    let price = strain(line, x, space, o, e);
    assert(price == hundred * cube(sum));
    let two = 2real / 1000real;
    let p = 100real * r3;
    assert(near(amount(price), p, two));
    // What is left over is too little to count.
    let slight = Binary64::ratio(1, 100);
    lemma_ratio_error(1, 100);
    assert(1u64 as real == 1real && 100u64 as real == 100real);
    lemma_amount_order(slight, left);
    assert(failure_cost(line.residual, o.mode) == Binary64::zero());
    assert(ending_cost(x, space, width, o) == Binary64::zero());
    assert(!given_up(line.residual, x, space, width, o, e)) by {
        let root = Binary64::ratio(12_599_210_498_948_732, 10_000_000_000_000_000);
        lemma_ratio_sign(12_599_210_498_948_732, 10_000_000_000_000_000);
        lemma_ratio_sign(1, 100);
        lemma_amount_order(all, Binary64::zero());
        crate::signs::lemma_mul_sign(all, root);
        crate::signs::lemma_add_sign(all * root, slight);
    }
    let cp = o.compression_penalty;
    let f = amount(cp);
    let pf = p * f;
    assert(0real <= pf <= 100000real && 0real <= f * two <= 2real && p * 0real == 0real && two
        * 0real == 0real) by (nonlinear_arith)
        requires
            pf == p * f,
            0real <= p <= 100real,
            0real <= f <= 1000real,
            two == 2real / 1000real,
    ;
    lemma_product_near(price, p, two, cp, f, 0real);
    let part = amount(price * cp);
    lemma_sizes(1real + part, 0real);
    lemma_add_error(Binary64::one(), price * cp);
    lemma_exact_sum(Binary64::one() + price * cp, Binary64::zero());
    lemma_exact_sum(Binary64::one() + price * cp + Binary64::zero(), Binary64::zero());
    assert(finished(line, space, o) == line);
}

/// A balanced line that is opened by `r` times its flexibility, where that is
/// more than all of it but not more than five quarters, is not given up: it too
/// costs one and a hundred times the cube of `r`, as long as its flexibility is
/// no less than its spaces.
pub proof fn law_balanced_overstretch_is_cubic(
    start: usize,
    end: usize,
    x: Extent,
    space: Binary64,
    width: Binary64,
    o: Options,
    r: real,
)
    requires
        start < end,
        x.gaps == end - start - 1,
        x.gaps > 0,
        !x.last,
        accountable(x, space, width, o),
        measure_of(x, width) <= 1000000000real,
        o.mode == Mode::Balanced,
        0real <= amount(off_by(x, width)) <= 1000000real,
        flexibility(x, space, o, off_by(x, width)).is_finite(),
        1real / 1000real <= amount(flexibility(x, space, o, off_by(x, width))),
        (Binary64::from_count(x.gaps) * space).is_finite(),
        amount(Binary64::from_count(x.gaps) * space) <= amount(
            flexibility(x, space, o, off_by(x, width)),
        ),
        amount(space) <= amount(flexibility(x, space, o, off_by(x, width))),
        1real <= r <= 5real / 4real,
        r * amount(flexibility(x, space, o, off_by(x, width))) == amount(off_by(x, width)),
    ensures
        ({
            let cost = fitted(start, end, x, space, width, o, false).cost;
            cost.is_finite() && near(
                amount(cost),
                1real + 100real * (r * r * r),
                1real / 100real,
            )
        }),
{
    let delta = shortfall(x, width);
    let all = capacity(x, space, delta, o);
    assert(delta == off_by(x, width));
    lemma_unit();
    lemma_reach();
    lemma_tiny(1real);
    lemma_amount_zero();
    lemma_amount_one();
    lemma_one();
    lemma_shortfall_error(x, width);
    lemma_amount_order(delta, Binary64::zero());
    lemma_amount_order(Binary64::zero(), delta);
    assert(all == flexibility(x, space, o, delta));
    let (d, a) = (amount(delta), amount(all));
    lemma_sizes(d, 0real);
    assert(size(d) == d) by {
        reveal(size);
    }
    assert(a <= d <= 5real / 4real * a) by (nonlinear_arith)
        requires
            r * a == d,
            1real <= r <= 5real / 4real,
            a > 0real,
    ;
    lemma_all_used(delta, all);
    lemma_filled(start, end, x, space, width, o);
    let one = Binary64::one();
    let line = preferred(start, end, x, space, width, o);
    lemma_mul_one(one, one);
    assert(js_sign(delta) * one == one);
    lemma_mul_one(one, all);
    assert((one * all).value() == all.value());
    let rest = d - a;
    lemma_sizes(rest, 0real);
    assert(size(rest) == rest) by {
        reveal(size);
    }
    lemma_sub_error(delta, one * all);
    assert(line.residual == delta - one * all);
    let left = line.residual.abs();
    lemma_amount_abs(line.residual);
    lemma_sizes(amount(line.residual), 0real);
    let l = amount(left);
    assert(near(l, rest, ulp() * rest)) by {
        reveal(size);
    }
    let wide = Binary64::from_count(x.gaps) * space;
    let unit = js_max(all, js_max(wide, space));
    lemma_amount_order(all, space);
    lemma_amount_order(wide, space);
    lemma_amount_order(all, wide);
    assert(unit.is_finite() && amount(unit) == a);
    let q = l / a;
    let part = r - 1real;
    assert(part * a == rest) by (nonlinear_arith)
        requires
            part == r - 1real,
            r * a == d,
            rest == d - a,
    ;
    assert(near(q, part, ulp() * part) && 0real <= q <= 1real) by (nonlinear_arith)
        requires
            q == l / a,
            near(l, rest, ulp() * rest),
            part * a == rest,
            0real <= part <= 1real / 4real,
            a > 0real,
    ;
    lemma_sizes(q, 0real);
    assert(size(q) == q) by {
        reveal(size);
    }
    lemma_div_error(left, unit);
    let extra = left / unit;
    lemma_sizes(1real + amount(extra), 0real);
    assert(size(1real + amount(extra)) <= 2real) by {
        reveal(size);
    }
    lemma_add_error(one, extra);
    let sum = one + extra;
    lemma_cube_near(sum, r);
    let rr = r * r;
    let r3 = rr * r;
    assert(0real <= rr <= 25real && 0real <= r3 <= 125real) by (nonlinear_arith)
        requires
            rr == r * r,
            r3 == rr * r,
            0real <= r <= 5real,
    ;
    lemma_exact(100);
    let hundred = Binary64::ratio(100, 1);
    let e = 1real / 1000000000real;
    assert(0real * r3 == 0real && 0real * e == 0real && r3 * 0real == 0real) by (nonlinear_arith);
    lemma_product_near(hundred, 100real, 0real, cube(sum), r3, e);
    let price = strain(line, x, space, o, false);
    assert(price == hundred * cube(sum));
    // It is not given up.
    let root = Binary64::ratio(12_599_210_498_948_732, 10_000_000_000_000_000);
    let slight = Binary64::ratio(1, 100);
    lemma_ratio_error(12_599_210_498_948_732, 10_000_000_000_000_000);
    lemma_ratio_error(1, 100);
    assert(1u64 as real == 1real && 100u64 as real == 100real);
    let (n, m) = (12599210498948732real, 10000000000000000real);
    assert(12_599_210_498_948_732u64 as real == n && 10_000_000_000_000_000u64 as real == m);
    let k = amount(root);
    assert(1255real / 1000real <= k <= 2real);
    let ak = a * k;
    assert(1255real / 1000real * a <= ak <= 2real * a) by (nonlinear_arith)
        requires
            ak == a * k,
            1255real / 1000real <= k <= 2real,
            a >= 0real,
    ;
    lemma_sizes(ak, 0real);
    assert(size(ak) == ak) by {
        reveal(size);
    }
    lemma_mul_error(all, root);
    let bar = all * root;
    lemma_sizes(amount(bar) + amount(slight), 0real);
    assert(size(amount(bar) + amount(slight)) == amount(bar) + amount(slight)) by {
        reveal(size);
    }
    lemma_add_error(bar, slight);
    lemma_amount_order(bar + slight, delta);
    let done = finished(line, space, o);
    assert(!given_up(done.residual, x, space, width, o, false));
    assert(ending_cost(x, space, width, o) == Binary64::zero());
    lemma_plain_cost(price, 100real * r3);
}

/// An emergency leaves the costs of lines as they are that need not be opened,
/// unless ordinary fitting gave them up.
pub proof fn law_emergency_spares_closed_lines(
    start: usize,
    end: usize,
    x: Extent,
    space: Binary64,
    width: Binary64,
    o: Options,
)
    requires
        !off_by(x, width).gt(Binary64::zero()),
        !x.last,
        !fitted(start, end, x, space, width, o, false).cost.same(Binary64::infinity()),
    ensures
        fitted(start, end, x, space, width, o, true).cost == fitted(
            start,
            end,
            x,
            space,
            width,
            o,
            false,
        ).cost,
{
}

}
