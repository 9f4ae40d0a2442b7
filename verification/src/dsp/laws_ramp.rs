//! How smoothed parameters move.
use vstd::prelude::*;

use super::gain::{Gain, SmoothedValue};
use super::level::{ramp, smooth};
use crate::accuracy::{
    exact, large, lemma_eps, lemma_factor_grows, lemma_limits, lemma_minus_error,
    lemma_norm_product, lemma_plus_error, lemma_share, lemma_times_error, norm, tiny,
};
use crate::single::Single;

verus! {

/// The errors of a smoothing step, added up.
proof fn lemma_step_errors(
    m: real,
    cm: real,
    gm: real,
    t: real,
    ep: real,
    eq: real,
    ev: real,
    es: real,
)
    requires
        cm + gm == m,
        cm >= 0 as real,
        gm >= 0 as real,
        0 as real <= t,
        0x100_0000 as real * ep <= cm + 0x100_0000 as real * t,
        0x100_0000 as real * ev <= gm,
        0x100_0000 as real * eq <= gm + ev + 0x100_0000 as real * t,
        0x100_0000 as real * es <= (cm + ep) + (gm + ev + eq),
    ensures
        0x100_0000 as real * (es + ep + eq + ev) <= 4 as real * m + 0x400_0000 as real * t,
        (cm + ep) + (gm + ev + eq) <= 2 as real * m + 4 as real * t,
{
}

/// The share that is left, and what its error costs.
proof fn lemma_lost_share(v: real, g: real, et: real, m: real)
    requires
        g >= 0 as real,
        m >= 0 as real,
        norm(et) <= m,
        0x100_0000 as real * norm(v - g) <= g,
    ensures
        0x100_0000 as real * norm(v * et - g * et) <= g * m,
        norm(g * et) <= g * m,
{
    let d: real = v - g;
    let a: real = norm(d);
    lemma_norm_product(d, et);
    lemma_norm_product(g, et);
    lemma_factor_grows(norm(et), m, a);
    lemma_factor_grows(norm(et), m, g);
    lemma_factor_grows(0x100_0000 as real * a, g, m);
    assert((0x100_0000 as real * a) * m == 0x100_0000 as real * (a * m)) by (nonlinear_arith);
    assert(d * et == v * et - g * et) by (nonlinear_arith)
        requires
            d == v - g,
    ;
}

/// A smoothing step comes out at the weighted mean of where it starts and where it goes, to four
/// parts in `2^24` of the larger of the two, and twice the smallest positive number.
pub proof fn lemma_smooth_error(c: Single, x: Single, t: Single, m: real)
    requires
        c.bits <= Single::one().bits,
        x.finite(),
        t.finite(),
        norm(exact(x)) <= m,
        norm(exact(t)) <= m,
        4 as real * m + 4 as real <= large(),
    ensures
        smooth(c, x, t).finite(),
        0x100_0000 as real * norm(
            exact(smooth(c, x, t)) - (exact(c) * exact(x) + (1 as real - exact(c)) * exact(t)),
        ) <= 4 as real * m + 0x400_0000 as real * tiny(),
{
    let one = Single::one();
    let v = one.minus(c);
    let p = c.times(x);
    let q = v.times(t);
    let s = p.plus(q);
    let ec: real = exact(c);
    let ex: real = exact(x);
    let et: real = exact(t);
    let g: real = 1 as real - ec;
    lemma_limits();
    lemma_left_over(c);
    let cm: real = ec * m;
    let gm: real = g * m;
    assert(cm + gm == m) by (nonlinear_arith)
        requires
            cm == ec * m,
            gm == g * m,
            g == 1 as real - ec,
    ;
    lemma_factor_grows(0 as real, ec, m);
    lemma_factor_grows(0 as real, g, m);
    assert(0 as real * m == 0 as real) by (nonlinear_arith);
    lemma_norm_product(ec, ex);
    lemma_factor_grows(norm(ex), m, ec);
    lemma_product_error(c, x, cm);
    let ep: real = norm(exact(p) - ec * ex);
    lemma_lost_share(exact(v), g, et, m);
    let ev: real = norm(exact(v) * et - g * et);
    lemma_product_error(v, t, gm + ev);
    let eq: real = norm(exact(q) - exact(v) * et);
    let sum: real = exact(p) + exact(q);
    let most: real = (cm + ep) + (gm + ev + eq);
    assert(norm(sum) <= most);
    lemma_plus_error(p, q);
    lemma_eps(norm(sum));
    let es: real = norm(exact(s) - sum);
    lemma_step_errors(m, cm, gm, tiny(), ep, eq, ev, es);
}

/// What is left of one after a share is taken.
proof fn lemma_left_over(c: Single)
    requires
        c.bits <= Single::one().bits,
    ensures
        c.finite(),
        Single::one().minus(c).finite(),
        0 as real <= exact(c) <= 1 as real,
        0x100_0000 as real * norm(exact(Single::one().minus(c)) - (1 as real - exact(c)))
            <= 1 as real - exact(c),
{
    let one = Single::one();
    lemma_share(c);
    lemma_share(one);
    lemma_limits();
    lemma_minus_error(one, c);
    lemma_eps(1 as real - exact(c));
}

/// The error of a product that is at most `b`.
proof fn lemma_product_error(a: Single, x: Single, b: real)
    requires
        a.finite(),
        x.finite(),
        norm(exact(a) * exact(x)) <= b,
        b <= large(),
    ensures
        a.times(x).finite(),
        0x100_0000 as real * norm(exact(a.times(x)) - exact(a) * exact(x)) <= b
            + 0x100_0000 as real * tiny(),
{
    lemma_times_error(a, x);
    lemma_eps(norm(exact(a) * exact(x)));
    lemma_limits();
}

/// A power of a real number.
pub open spec fn power(c: real, n: nat) -> real
    decreases n,
{
    if n == 0 {
        1 as real
    } else {
        c * power(c, (n - 1) as nat)
    }
}

proof fn lemma_power_is_share(c: real, n: nat)
    requires
        0 as real <= c <= 1 as real,
    ensures
        0 as real <= power(c, n) <= 1 as real,
    decreases n,
{
    if n > 0 {
        lemma_power_is_share(c, (n - 1) as nat);
        let p: real = power(c, (n - 1) as nat);
        lemma_factor_grows(0 as real, c, p);
        lemma_factor_grows(c, 1 as real, p);
        assert(0 as real * p == 0 as real && 1 as real * p == p) by (nonlinear_arith);
    }
}

/// The amounts that smoothing from `x` to `t` has to do with: that of the target, and how far it
/// is away.
pub open spec fn reach(x: Single, t: Single) -> real {
    norm(exact(t)) + norm(exact(x) - exact(t))
}

/// What rounding may add up to on the way from `x` to `t`, times `2^24`: eight times the amounts,
/// and what is too small for a relative error.
pub open spec fn slack(x: Single, t: Single) -> real {
    8 as real * reach(x, t) + 0x800_0000 as real * tiny()
}

/// The coefficient, the start and the target of a ramp that single precision can follow: a
/// coefficient between zero and one less eight parts in `2^24`, so that a step is not lost in
/// rounding, and numbers that do not become infinite.
pub open spec fn followed(c: Single, x: Single, t: Single) -> bool {
    &&& c.bits <= Single::one().bits
    &&& 0x100_0000 as real * (1 as real - exact(c)) >= 8 as real
    &&& x.finite()
    &&& t.finite()
    &&& 8 as real * reach(x, t) + 16 as real <= large()
}

/// How far a ramp is away from its target is bounded when it follows its course.
proof fn lemma_course_is_bounded(k: real, g: real, e: real, pe: real, e0: real, r: real)
    requires
        k * g >= 8 as real,
        (k * g) * norm(e - pe) <= r,
        norm(pe) <= e0,
    ensures
        8 as real * norm(e) <= 8 as real * e0 + r,
{
    let d: real = norm(e - pe);
    lemma_factor_grows(8 as real, k * g, d);
}

/// One more step on the course.
proof fn lemma_course_goes_on(
    k: real,
    c: real,
    g: real,
    e: real,
    next: real,
    p: real,
    e0: real,
    r: real,
)
    requires
        k == 0x100_0000 as real,
        0 as real <= c <= 1 as real,
        g == 1 as real - c,
        (k * g) * norm(e - p * e0) <= r,
        k * norm(next - c * e) <= r,
    ensures
        (k * g) * norm(next - (c * p) * e0) <= r,
{
    let a: real = next - c * e;
    let b: real = e - p * e0;
    let cb: real = c * b;
    assert(next - (c * p) * e0 == a + cb) by (nonlinear_arith)
        requires
            a == next - c * e,
            b == e - p * e0,
            cb == c * b,
    ;
    lemma_norm_product(c, b);
    let na: real = norm(a);
    let nb: real = norm(b);
    let kg: real = k * g;
    assert(norm(a + cb) <= na + c * nb);
    lemma_factor_grows(0 as real, g, k);
    assert(k * 0 as real == 0 as real) by (nonlinear_arith);
    lemma_factor_grows(norm(a + cb), na + c * nb, kg);
    assert(kg * (na + c * nb) == g * (k * na) + c * (kg * nb)) by (nonlinear_arith)
        requires
            kg == k * g,
    ;
    lemma_factor_grows(k * na, r, g);
    lemma_factor_grows(kg * nb, r, c);
    assert(g * r + c * r == r) by (nonlinear_arith)
        requires
            g == 1 as real - c,
    ;
}

/// A smoothed parameter moves exponentially: what is left of the way shrinks by the coefficient
/// with every step, up to rounding.
pub proof fn law_ramp_is_exponential(c: Single, x: Single, t: Single, n: nat)
    requires
        followed(c, x, t),
    ensures
        ramp(c, x, t, n).finite(),
        (0x100_0000 as real * (1 as real - exact(c))) * norm(
            (exact(ramp(c, x, t, n)) - exact(t)) - power(exact(c), n) * (exact(x) - exact(t)),
        ) <= slack(x, t),
        norm(exact(ramp(c, x, t, n))) <= 2 as real * reach(x, t) + 1 as real,
    decreases n, 0int,
{
    let k: real = 0x100_0000 as real;
    let ec: real = exact(c);
    let g: real = 1 as real - ec;
    let et: real = exact(t);
    let e0: real = exact(x) - et;
    let r: real = slack(x, t);
    lemma_limits();
    lemma_share(c);
    if n == 0 {
        assert(1 as real * e0 == e0) by (nonlinear_arith);
        assert((k * g) * 0 as real == 0 as real) by (nonlinear_arith);
    } else {
        let before: nat = (n - 1) as nat;
        law_ramp_is_exponential(c, x, t, before);
        law_ramp_steps_towards_target(c, x, t, before);
        let now = ramp(c, x, t, before);
        let p: real = power(ec, before);
        lemma_course_goes_on(
            k,
            ec,
            g,
            exact(now) - et,
            exact(ramp(c, x, t, n)) - et,
            p,
            e0,
            r,
        );
        lemma_ramp_stays_near(c, x, t, n);
    }
}

/// What follows the course is not far away.
proof fn lemma_ramp_stays_near(c: Single, x: Single, t: Single, n: nat)
    requires
        followed(c, x, t),
        (0x100_0000 as real * (1 as real - exact(c))) * norm(
            (exact(ramp(c, x, t, n)) - exact(t)) - power(exact(c), n) * (exact(x) - exact(t)),
        ) <= slack(x, t),
    ensures
        8 as real * norm(exact(ramp(c, x, t, n)) - exact(t)) <= 8 as real * norm(
            exact(x) - exact(t),
        ) + slack(x, t),
        norm(exact(ramp(c, x, t, n))) <= 2 as real * reach(x, t) + 1 as real,
{
    let k: real = 0x100_0000 as real;
    let ec: real = exact(c);
    let e0: real = exact(x) - exact(t);
    let p: real = power(ec, n);
    lemma_limits();
    lemma_share(c);
    lemma_power_is_share(ec, n);
    lemma_norm_product(p, e0);
    lemma_factor_grows(p, 1 as real, norm(e0));
    assert(1 as real * norm(e0) == norm(e0)) by (nonlinear_arith);
    lemma_course_is_bounded(
        k,
        1 as real - ec,
        exact(ramp(c, x, t, n)) - exact(t),
        p * e0,
        norm(e0),
        slack(x, t),
    );
}

/// One step takes what is left of the way times the coefficient, up to rounding; so a ramp only
/// approaches its target, and does not pass it.
pub proof fn law_ramp_steps_towards_target(c: Single, x: Single, t: Single, n: nat)
    requires
        followed(c, x, t),
    ensures
        ({
            let now = exact(ramp(c, x, t, n)) - exact(t);
            let next = exact(ramp(c, x, t, n + 1)) - exact(t);
            &&& ramp(c, x, t, n + 1).finite()
            &&& 0x100_0000 as real * norm(next - exact(c) * now) <= slack(x, t)
            &&& now >= 0 as real ==> -slack(x, t) <= 0x100_0000 as real * next
            &&& now >= 0 as real ==> 0x100_0000 as real * next <= 0x100_0000 as real * now + slack(
                x,
                t,
            )
            &&& now <= 0 as real ==> 0x100_0000 as real * next <= slack(x, t)
            &&& now <= 0 as real ==> 0x100_0000 as real * next >= 0x100_0000 as real * now - slack(
                x,
                t,
            )
        }),
    decreases n, 1int,
{
    let k: real = 0x100_0000 as real;
    let ec: real = exact(c);
    let et: real = exact(t);
    let r = ramp(c, x, t, n);
    let now: real = exact(r) - et;
    lemma_limits();
    lemma_share(c);
    if n == 0 {
        assert(1 as real * (exact(x) - et) == exact(x) - et) by (nonlinear_arith);
        assert((k * (1 as real - ec)) * 0 as real == 0 as real) by (nonlinear_arith);
    } else {
        law_ramp_is_exponential(c, x, t, n);
    }
    lemma_ramp_stays_near(c, x, t, n);
    let m: real = norm(et) + norm(now);
    assert(8 as real * m <= 16 as real * reach(x, t) + 0x800_0000 as real * tiny());
    lemma_smooth_error(c, r, t, m);
    let s = ramp(c, x, t, n + 1);
    assert(s == smooth(c, r, t));
    let next: real = exact(s) - et;
    assert(next - ec * now == exact(s) - (ec * exact(r) + (1 as real - ec) * et))
        by (nonlinear_arith)
        requires
            next == exact(s) - et,
            now == exact(r) - et,
    ;
    lemma_between(ec, now);
}

/// A share of a number lies between nothing and the number.
proof fn lemma_between(c: real, x: real)
    requires
        0 as real <= c <= 1 as real,
    ensures
        x >= 0 as real ==> 0 as real <= c * x <= x,
        x <= 0 as real ==> x <= c * x <= 0 as real,
{
    let a: real = norm(x);
    lemma_factor_grows(0 as real, c, a);
    lemma_factor_grows(c, 1 as real, a);
    assert(0 as real * a == 0 as real && 1 as real * a == a) by (nonlinear_arith);
    assert(c * (-x) == -(c * x)) by (nonlinear_arith);
}

/// A ramp stays between where it starts and where it goes, up to rounding.
pub proof fn law_ramp_stays_between(c: Single, x: Single, t: Single, n: nat)
    requires
        followed(c, x, t),
    ensures
        ({
            let way = exact(x) - exact(t);
            let left = exact(ramp(c, x, t, n)) - exact(t);
            let scale = 0x100_0000 as real * (1 as real - exact(c));
            &&& way >= 0 as real ==> -slack(x, t) <= scale * left && scale * (left - way) <= slack(
                x,
                t,
            )
            &&& way <= 0 as real ==> scale * left <= slack(x, t) && -slack(x, t) <= scale * (left
                - way)
        }),
{
    let k: real = 0x100_0000 as real;
    let ec: real = exact(c);
    let way: real = exact(x) - exact(t);
    let left: real = exact(ramp(c, x, t, n)) - exact(t);
    let scale: real = k * (1 as real - ec);
    let p: real = power(ec, n);
    let r: real = slack(x, t);
    lemma_share(c);
    law_ramp_is_exponential(c, x, t, n);
    lemma_power_is_share(ec, n);
    lemma_between(p, way);
    let off: real = left - p * way;
    let near: real = norm(off);
    assert(scale * near <= r);
    lemma_factor_grows(off, near, scale);
    lemma_factor_grows(-near, off, scale);
    assert(scale * (-near) == -(scale * near)) by (nonlinear_arith);
    if way >= 0 as real {
        lemma_factor_grows(off, left, scale);
        lemma_factor_grows(left - way, off, scale);
    } else {
        lemma_factor_grows(left, off, scale);
        lemma_factor_grows(off, left - way, scale);
    }
}

/// A smoothed parameter goes to its target exponentially: after `n` calls of `next` the way that is
/// left is the `n`-th power of the coefficient times the whole way, and no call goes away from the
/// target or past it; all up to rounding.
pub proof fn law_smoothed_value_approaches_its_target(s: SmoothedValue, n: nat)
    requires
        followed(s.coeff, s.current, s.target),
    ensures
        ({
            let way = exact(s.current) - exact(s.target);
            let left = exact(s.at(n)) - exact(s.target);
            let next = exact(s.at(n + 1)) - exact(s.target);
            let r = slack(s.current, s.target);
            &&& s.at(n).finite()
            &&& (0x100_0000 as real * (1 as real - exact(s.coeff))) * norm(
                left - power(exact(s.coeff), n) * way,
            ) <= r
            &&& 0x100_0000 as real * norm(next - exact(s.coeff) * left) <= r
        }),
{
    law_ramp_is_exponential(s.coeff, s.current, s.target, n);
    law_ramp_steps_towards_target(s.coeff, s.current, s.target, n);
}

/// A parameter that was snapped to a value stays there, up to rounding.
pub proof fn law_snapped_value_stays(s: SmoothedValue, n: nat)
    requires
        s.current == s.target,
        followed(s.coeff, s.current, s.target),
    ensures
        (0x100_0000 as real * (1 as real - exact(s.coeff))) * norm(
            exact(s.at(n)) - exact(s.target),
        ) <= slack(s.target, s.target),
{
    law_ramp_is_exponential(s.coeff, s.current, s.target, n);
    let p: real = power(exact(s.coeff), n);
    assert(p * 0 as real == 0 as real) by (nonlinear_arith);
}

/// While a gain stage ramps to a new gain, every sample is scaled by what the ramp has come to: the
/// new gain, and the way to it times a power of the coefficient. The level of the ramp and the
/// product are both accurate up to rounding.
pub proof fn law_gain_ramps_to_its_target(g: Gain, input: Seq<Single>, i: int)
    requires
        followed(g.smooth_coeff, g.current_linear, g.gain_linear),
        0 <= i < input.len(),
        input[i].finite(),
        norm(exact(input[i])) * (2 as real * reach(g.current_linear, g.gain_linear) + 1 as real)
            <= large(),
    ensures
        ({
            let level = exact(g.level_at((i + 1) as nat));
            let goal = exact(g.gain_linear);
            let way = exact(g.current_linear) - goal;
            let c = exact(g.smooth_coeff);
            let x = exact(input[i]);
            let y = exact(g.output(input)[i]);
            &&& g.output(input)[i].finite()
            &&& (0x100_0000 as real * (1 as real - c)) * norm(
                level - (goal + power(c, (i + 1) as nat) * way),
            ) <= slack(g.current_linear, g.gain_linear)
            &&& 0x100_0000 as real * norm(y - x * level) <= norm(x * level) + 0x100_0000 as real
                * tiny()
        }),
{
    let n: nat = (i + 1) as nat;
    let l = g.level_at(n);
    law_ramp_is_exponential(g.smooth_coeff, g.current_linear, g.gain_linear, n);
    let x: real = exact(input[i]);
    lemma_norm_product(x, exact(l));
    lemma_factor_grows(
        norm(exact(l)),
        2 as real * reach(g.current_linear, g.gain_linear) + 1 as real,
        norm(x),
    );
    lemma_product_error(input[i], l, norm(x * exact(l)));
}

/// A gain stage that stands at its gain, as it does once it was prepared or reset, scales every
/// sample by that gain from the first one on, up to rounding.
pub proof fn law_settled_gain_scales_at_once(g: Gain, input: Seq<Single>, i: int)
    requires
        g.current_linear == g.gain_linear,
        followed(g.smooth_coeff, g.gain_linear, g.gain_linear),
        0 <= i < input.len(),
        input[i].finite(),
        norm(exact(input[i])) * (2 as real * reach(g.gain_linear, g.gain_linear) + 1 as real)
            <= large(),
    ensures
        ({
            let level = exact(g.level_at((i + 1) as nat));
            let c = exact(g.smooth_coeff);
            let x = exact(input[i]);
            let y = exact(g.output(input)[i]);
            &&& g.output(input)[i].finite()
            &&& (0x100_0000 as real * (1 as real - c)) * norm(level - exact(g.gain_linear))
                <= slack(g.gain_linear, g.gain_linear)
            &&& 0x100_0000 as real * norm(y - x * level) <= norm(x * level) + 0x100_0000 as real
                * tiny()
        }),
{
    law_gain_ramps_to_its_target(g, input, i);
    let p: real = power(exact(g.smooth_coeff), (i + 1) as nat);
    assert(p * 0 as real == 0 as real) by (nonlinear_arith);
}

} // verus!
