//! The monitor: plays the processed signal at another device's sample rate.
use vstd::arithmetic::div_mod::lemma_fundamental_div_mod;
use vstd::arithmetic::power2::{lemma2_to64, lemma2_to64_rest, lemma_pow2_pos, pow2};
use vstd::prelude::*;

use super::callbacks::{
    answers, arrived, lemma_arrived_len, lemma_no_answer, lemma_one_more_answer,
};
use super::ring::{received, stock, SampleReceiver};
use crate::arith::{lemma_div_unique, lemma_pow2_sum};
use crate::double::Double;
use crate::nearest::{
    law_rounding_is_monotone, lemma_magnitude_of_parts, lemma_round_exact,
    lemma_round_parts, lemma_round_representable, miss,
};
use crate::rounding::{
    binade, lemma_magnitude_monotone, lemma_magnitude_zero, magnitude, round_magnitude,
};
use crate::single::Single;

verus! {

/// Finite, and without a minus sign.
pub open spec fn nonneg(a: Double) -> bool {
    a.bits < 0x7ff0_0000_0000_0000
}

/// The value of a non-negative number, in units of `2^-1074`.
pub open spec fn size(a: Double) -> nat {
    magnitude(52, a.bits as nat)
}

/// How many whole steps a position is past the last sample.
pub open spec fn whole(p: Double) -> nat {
    size(p) / pow2(1074)
}

/// What is left of a position after its whole steps.
pub open spec fn fraction(p: Double) -> Double {
    Double { bits: round_magnitude(52, size(p) % pow2(1074), 1) as u64 }
}

proof fn lemma_one()
    ensures
        size(Double::one()) == pow2(1074),
        nonneg(Double::one()),
        pow2(1074) > 0,
{
    lemma2_to64();
    lemma2_to64_rest();
    lemma_magnitude_of_parts(52, 1022, 0x10_0000_0000_0000);
    lemma_pow2_sum(52, 1022);
    lemma_pow2_pos(1074);
}

proof fn lemma_order(a: Double, b: Double)
    requires
        nonneg(a),
        nonneg(b),
    ensures
        a.bits <= b.bits <==> size(a) <= size(b),
        a.bits < b.bits <==> size(a) < size(b),
        a.ge(b) == (a.bits >= b.bits),
{
    reveal(crate::float::at_most);
    if a.bits < b.bits {
        lemma_magnitude_monotone(52, a.bits as nat, b.bits as nat);
    } else if b.bits < a.bits {
        lemma_magnitude_monotone(52, b.bits as nat, a.bits as nat);
    }
}

/// Below `2^53`, taking one away is exact.
proof fn lemma_one_less(p: Double)
    requires
        Double::one().bits <= p.bits < 0x4340_0000_0000_0000,
    ensures
        nonneg(p.minus(Double::one())),
        p.minus(Double::one()).bits < p.bits,
        size(p.minus(Double::one())) == size(p) - pow2(1074),
{
    reveal(crate::float::added);
    let one = Double::one();
    lemma_one();
    lemma_order(one, p);
    lemma2_to64();
    lemma2_to64_rest();
    let c: nat = pow2(52);
    let b: nat = p.bits as nat;
    let field: nat = b / c;
    lemma_fundamental_div_mod(b as int, c as int);
    assert(1023 <= field <= 1075) by (nonlinear_arith)
        requires
            b == c * field + b % c,
            0 <= b % c < c,
            c == 0x10_0000_0000_0000,
            0x3ff0_0000_0000_0000 <= b < 0x4340_0000_0000_0000,
    ;
    let e: nat = (field - 1) as nat;
    let m: nat = c + b % c;
    lemma_pow2_sum((1074 - e) as nat, e);
    lemma_pow2_pos(e);
    let s: int = pow2((1074 - e) as nat) as int;
    let pe: int = pow2(e) as int;
    assert(s <= m) by (nonlinear_arith)
        requires
            m * pe >= s * pe,
            pe > 0,
    ;
    let k: nat = (m - s) as nat;
    assert(k * pe == m * pe - s * pe) by (nonlinear_arith)
        requires
            k == m - s,
    ;
    lemma_pow2_pos((1074 - e) as nat);
    lemma_round_exact(52, k, e, b);
    let n: nat = k * pow2(e);
    let r: nat = round_magnitude(52, n, 1);
    if n == 0 {
        lemma_magnitude_zero(52, 0);
        lemma_magnitude_zero(52, r);
    }
    assert(r < b) by {
        if r == b {
            assert(false);
        }
    }
}

/// The sizes of `2^32` and `2^33`.
proof fn lemma_large()
    ensures
        magnitude(52, 0x41f0_0000_0000_0000) == 0x1_0000_0000 * pow2(1074),
        magnitude(52, 0x4200_0000_0000_0000) == 0x2_0000_0000 * pow2(1074),
{
    lemma2_to64();
    lemma2_to64_rest();
    lemma_magnitude_of_parts(52, 1054, 0x10_0000_0000_0000);
    lemma_magnitude_of_parts(52, 1055, 0x10_0000_0000_0000);
    lemma_pow2_sum(52, 1054);
    lemma_pow2_sum(52, 1055);
    lemma_pow2_sum(32, 1074);
    lemma_pow2_sum(33, 1074);
}

/// A rate as a number: at most `2^32`, and at least one if it is not zero.
proof fn lemma_rate(v: u32)
    ensures
        nonneg(Double::from_u32(v)),
        Double::from_u32(v).bits <= 0x41f0_0000_0000_0000,
        v > 0 ==> Double::from_u32(v).bits >= Double::one().bits,
{
    let u: nat = pow2(1074);
    lemma_one();
    lemma_large();
    let n: nat = v as nat * u;
    let top: nat = 0x1_0000_0000 * u;
    assert(n <= top) by (nonlinear_arith)
        requires
            n == v as nat * u,
            top == 0x1_0000_0000 * u,
            v <= 0xffff_ffff,
    ;
    assert(n * 1 == n && top * 1 == top && u * 1 == u);
    law_rounding_is_monotone(52, n, 1, top, 1);
    lemma_round_representable(52, 0x41f0_0000_0000_0000, top, 1);
    if v > 0 {
        assert(u <= n) by (nonlinear_arith)
            requires
                n == v as nat * u,
                v >= 1,
        ;
        law_rounding_is_monotone(52, u, 1, n, 1);
        lemma_round_representable(52, Double::one().bits as nat, u, 1);
    }
}

/// The ratio of two rates, the second not zero, is at most `2^32`.
proof fn lemma_ratio(a: u32, b: u32)
    requires
        b > 0,
    ensures
        Double::from_u32(a).over(Double::from_u32(b)).bits <= 0x41f0_0000_0000_0000,
{
    reveal(crate::float::divided);
    let x = Double::from_u32(a);
    let y = Double::from_u32(b);
    lemma_rate(a);
    lemma_rate(b);
    lemma_one();
    lemma_large();
    lemma_order(Double::one(), y);
    let u: nat = pow2(1074);
    let n: nat = size(x) * u;
    let top: nat = 0x1_0000_0000 * u;
    lemma_order(x, Double { bits: 0x41f0_0000_0000_0000 });
    let sy: nat = size(y);
    assert(n * 1 <= top * sy) by (nonlinear_arith)
        requires
            n == size(x) * u,
            size(x) <= top,
            u <= sy,
    ;
    law_rounding_is_monotone(52, n, sy, top, 1);
    lemma_round_representable(52, 0x41f0_0000_0000_0000, top, 1);
}

/// A position below one, moved on by the ratio, stays within exact whole steps.
proof fn lemma_moved_on(pos: Double, ratio: Double)
    requires
        pos.bits < Double::one().bits,
        ratio.bits <= 0x41f0_0000_0000_0000,
    ensures
        pos.plus(ratio).bits <= 0x4200_0000_0000_0000,
{
    reveal(crate::float::added);
    lemma_one();
    lemma_large();
    let u: nat = pow2(1074);
    lemma_order(pos, Double::one());
    lemma_order(ratio, Double { bits: 0x41f0_0000_0000_0000 });
    let n: nat = size(pos) + size(ratio);
    let top: nat = 0x2_0000_0000 * u;
    assert(n * 1 == n && top * 1 == top);
    law_rounding_is_monotone(52, n, 1, top, 1);
    lemma_round_representable(52, 0x4200_0000_0000_0000, top, 1);
}

/// A position below one is its own fraction.
proof fn lemma_below_one(p: Double)
    requires
        p.bits < Double::one().bits,
    ensures
        whole(p) == 0,
        fraction(p) == p,
{
    lemma_one();
    lemma_order(p, Double::one());
    let u: nat = pow2(1074);
    lemma_div_unique(size(p), u, 0, size(p));
    assert(size(p) * 1 == size(p));
    lemma_round_representable(52, p.bits as nat, size(p), 1);
}

/// Taking one away takes one whole step, and leaves the fraction.
proof fn lemma_step_down(p: Double)
    requires
        Double::one().bits <= p.bits < 0x4340_0000_0000_0000,
    ensures
        whole(p) == whole(p.minus(Double::one())) + 1,
        fraction(p) == fraction(p.minus(Double::one())),
{
    lemma_one();
    lemma_one_less(p);
    let q = p.minus(Double::one());
    let u: nat = pow2(1074);
    let a: int = whole(q) as int;
    let r: nat = size(q) % u;
    lemma_fundamental_div_mod(size(q) as int, u as int);
    let n: nat = size(p);
    let w: nat = whole(q) + 1;
    assert(n == w * u + r) by (nonlinear_arith)
        requires
            n == size(q) + u,
            size(q) == u * a + r,
            w == a + 1,
    ;
    lemma_div_unique(n, u, w, r);
}

/// What a device plays after it took `got` from the ring: the last sample taken, silence if that
/// one had not arrived, and what it played before if it took none.
pub open spec fn held(last: Single, got: Seq<Option<Single>>) -> Single {
    if got.len() == 0 {
        last
    } else {
        match got.last() {
            Some(x) => x,
            None => Single::zero(),
        }
    }
}

/// The monitor side of an engine session. Each frame of the monitor device moves on by `ratio`
/// samples of the processed signal, and plays the last whole one.
pub struct MonitorOutput {
    pub channels: usize,
    pub rx: SampleReceiver,
    /// Samples of the processed signal to one frame of the monitor.
    pub ratio: Double,
    /// How far the monitor is past the last sample that it took.
    pub pos: Double,
    /// What the monitor plays.
    pub last: Single,
}

impl MonitorOutput {
    /// There is a channel to write to, the ratio is that of two rates, and the position lies
    /// before the next sample.
    pub open spec fn sound(&self) -> bool {
        &&& self.channels > 0
        &&& self.ratio.bits <= 0x41f0_0000_0000_0000
        &&& self.pos.bits < Double::one().bits
    }

    /// The monitor starts, silent, with a signal of rate `out_rate` on a device of rate
    /// `monitor_rate`.
    pub open spec fn starts(&self, out_rate: u32, monitor_rate: u32) -> bool {
        &&& self.ratio == Double::from_u32(out_rate).over(Double::from_u32(monitor_rate))
        &&& self.pos == Double::zero()
        &&& self.last == Single::zero()
    }

    /// The position after `f` frames.
    pub open spec fn pos_at(&self, f: nat) -> Double
        decreases f,
    {
        if f == 0 {
            self.pos
        } else {
            fraction(self.pos_at((f - 1) as nat).plus(self.ratio))
        }
    }

    /// How many samples the first `f` frames take from the ring.
    pub open spec fn due(&self, f: nat) -> nat
        decreases f,
    {
        if f == 0 {
            0
        } else {
            self.due((f - 1) as nat) + whole(self.pos_at((f - 1) as nat).plus(self.ratio))
        }
    }

    /// How many frames a block has; the last one may be cut short.
    pub open spec fn frames_in(&self, len: nat) -> nat {
        (len + self.channels - 1) as nat / (self.channels as nat)
    }

    /// A monitor that starts silent, for a signal of rate `out_rate` on a device of rate
    /// `monitor_rate`.
    pub fn new(channels: usize, rx: SampleReceiver, out_rate: u32, monitor_rate: u32) -> (r:
        MonitorOutput)
        requires
            channels > 0,
            monitor_rate > 0,
        ensures
            r.sound(),
            r == (MonitorOutput {
                channels,
                rx,
                ratio: Double::from_u32(out_rate).over(Double::from_u32(monitor_rate)),
                pos: Double::zero(),
                last: Single::zero(),
            }),
            r.starts(out_rate, monitor_rate),
    {
        proof {
            lemma_ratio(out_rate, monitor_rate);
        }
        MonitorOutput {
            channels,
            rx,
            ratio: Double::from_u32(out_rate).over(Double::from_u32(monitor_rate)),
            pos: Double::zero(),
            last: Single::zero(),
        }
    }

    /// Moves on by one frame: takes as many samples as the position has passed.
    fn advance(&mut self)
        requires
            old(self).sound(),
        ensures
            final(self).sound(),
            final(self).channels == old(self).channels,
            final(self).ratio == old(self).ratio,
            final(self).pos == fraction(old(self).pos.plus(old(self).ratio)),
            exists|got: Seq<Option<Single>>|
                {
                    &&& got.len() == whole(old(self).pos.plus(old(self).ratio))
                    &&& #[trigger] answers(&old(self).rx, &final(self).rx, got)
                    &&& final(self).last == held(old(self).last, got)
                },
    {
        let ghost start = *self;
        let ghost far = self.pos.plus(self.ratio);
        let ghost mut got: Seq<Option<Single>> = Seq::empty();
        proof {
            lemma_one();
            lemma_moved_on(self.pos, self.ratio);
            lemma_no_answer(&self.rx);
        }
        self.pos = self.pos.plus(self.ratio);
        while self.pos.ge(Double::one())
            invariant
                self.channels == start.channels,
                self.ratio == start.ratio,
                self.pos.bits <= 0x4200_0000_0000_0000,
                nonneg(Double::one()),
                whole(far) == whole(self.pos) + got.len(),
                fraction(far) == fraction(self.pos),
                answers(&start.rx, &self.rx, got),
                self.last == held(start.last, got),
            decreases self.pos.bits,
        {
            proof {
                lemma_order(self.pos, Double::one());
                lemma_one_less(self.pos);
                lemma_step_down(self.pos);
            }
            let ghost now = self.rx;
            let r: Option<Single> = self.rx.receive();
            proof {
                lemma_one_more_answer(&start.rx, &now, &self.rx, got, r);
                got = got.push(r);
            }
            self.last = match r {
                Some(x) => x,
                None => Single::zero(),
            };
            self.pos = self.pos.minus(Double::one());
        }
        proof {
            lemma_order(self.pos, Double::one());
            lemma_below_one(self.pos);
        }
        assert(answers(&old(self).rx, &self.rx, got));
    }

    /// Makes one block for the device: every frame plays one sample on all its channels.
    pub fn fill(&mut self, data: &mut [Single])
        requires
            old(self).sound(),
        ensures
            final(self).sound(),
            final(self).channels == old(self).channels,
            final(self).ratio == old(self).ratio,
            final(self).pos == old(self).pos_at(old(self).frames_in(old(data)@.len())),
            final(data)@.len() == old(data)@.len(),
            exists|got: Seq<Option<Single>>|
                {
                    &&& got.len() == old(self).due(old(self).frames_in(old(data)@.len()))
                    &&& #[trigger] answers(&old(self).rx, &final(self).rx, got)
                    &&& final(self).last == held(old(self).last, got)
                    &&& forall|i: int|
                        0 <= i < old(data)@.len() ==> #[trigger] final(data)@[i] == held(
                            old(self).last,
                            got.take(
                                old(self).due((i / (old(self).channels as int) + 1) as nat) as int,
                            ),
                        )
                },
    {
        let ghost start = *self;
        let ghost mut got: Seq<Option<Single>> = Seq::empty();
        let ghost mut f: nat = 0;
        let n: usize = data.len();
        let c: usize = self.channels;
        let mut left: usize = 0;
        let mut i: usize = 0;
        proof {
            lemma_no_answer(&self.rx);
            assert(0 * c == 0);
        }
        while i < n
            invariant
                n == data@.len(),
                c == start.channels,
                c > 0,
                self.sound(),
                self.channels == start.channels,
                self.ratio == start.ratio,
                i <= n,
                left < c,
                i + left == f * c,
                self.pos == start.pos_at(f),
                got.len() == start.due(f),
                answers(&start.rx, &self.rx, got),
                self.last == held(start.last, got),
                forall|j: int|
                    0 <= j < i ==> #[trigger] data@[j] == held(
                        start.last,
                        got.take(start.due((j / (c as int) + 1) as nat) as int),
                    ),
                forall|j: int| 0 <= j < i ==> #[trigger] (j / (c as int)) < f,
            decreases n - i,
        {
            let ghost old_got = got;
            let ghost old_f = f;
            if left == 0 {
                let ghost now = *self;
                self.advance();
                proof {
                    let more = choose|more: Seq<Option<Single>>|
                        {
                            &&& more.len() == whole(now.pos.plus(now.ratio))
                            &&& #[trigger] answers(&now.rx, &self.rx, more)
                            &&& self.last == held(now.last, more)
                        };
                    lemma_answers_join(&start.rx, &now.rx, &self.rx, got, more);
                    lemma_held_join(start.last, got, more);
                    got = got + more;
                    f = f + 1;
                    assert((f - 1) * c + c == f * c) by (nonlinear_arith);
                }
                left = c;
            }
            data[i] = self.last;
            left = left - 1;
            proof {
                let d: int = c as int;
                let frame: int = f - 1;
                // this sample belongs to the latest frame
                assert(i as int == frame * d + (d - 1 - left)) by (nonlinear_arith)
                    requires
                        i + left + 1 == f * d,
                        frame == f - 1,
                ;
                vstd::arithmetic::div_mod::lemma_fundamental_div_mod_converse(
                    i as int,
                    d,
                    frame,
                    d - 1 - left,
                );
                assert(got.take(start.due(f) as int) =~= got);
                assert forall|j: int| 0 <= j < i implies #[trigger] data@[j] == held(
                    start.last,
                    got.take(start.due((j / (c as int) + 1) as nat) as int),
                ) by {
                    assert(j / d < old_f);
                    lemma_due_grows(&start, (j / d + 1) as nat, old_f);
                    assert(got.take(start.due((j / d + 1) as nat) as int) =~= old_got.take(
                        start.due((j / d + 1) as nat) as int,
                    ));
                }
            }
            i = i + 1;
        }
        proof {
            let d: int = c as int;
            let total: int = n + d - 1;
            assert(total == f * d + (d - 1 - left)) by (nonlinear_arith)
                requires
                    n + left == f * d,
                    total == n + d - 1,
            ;
            vstd::arithmetic::div_mod::lemma_fundamental_div_mod_converse(
                total,
                d,
                f as int,
                d - 1 - left,
            );
        }
        assert(answers(&old(self).rx, &self.rx, got));
    }
}

/// Where both devices run at the same rate, every frame takes exactly one sample.
pub proof fn law_equal_rates_take_one_each(s: &MonitorOutput, rate: u32, f: nat)
    requires
        rate > 0,
        s.ratio == Double::from_u32(rate).over(Double::from_u32(rate)),
        s.pos == Double::zero(),
    ensures
        s.due(f) == f,
        s.pos_at(f) == Double::zero(),
    decreases f,
{
    reveal(crate::float::added);
    reveal(crate::float::divided);
    let one = Double::one();
    let zero = Double::zero();
    let x = Double::from_u32(rate);
    let u: nat = pow2(1074);
    lemma_one();
    lemma_rate(rate);
    lemma_order(one, x);
    let n: nat = size(x) * u;
    assert(n == u * size(x)) by (nonlinear_arith)
        requires
            n == size(x) * u,
    ;
    lemma_round_representable(52, one.bits as nat, n, size(x));
    assert(s.ratio == one);
    lemma_magnitude_zero(52, 0);
    assert(u * 1 == u);
    lemma_round_representable(52, one.bits as nat, u, 1);
    assert(zero.plus(one) == one);
    lemma_div_unique(u, u, 1, 0);
    lemma_round_representable(52, 0, 0, 1);
    assert(whole(one) == 1);
    assert(fraction(one) == zero);
    if f > 0 {
        law_equal_rates_take_one_each(s, rate, (f - 1) as nat);
    }
}

proof fn lemma_due_grows(s: &MonitorOutput, f: nat, g: nat)
    requires
        f <= g,
    ensures
        s.due(f) <= s.due(g),
    decreases g,
{
    if f < g {
        lemma_due_grows(s, f, (g - 1) as nat);
    }
}

proof fn lemma_answers_join(
    a: &SampleReceiver,
    b: &SampleReceiver,
    c: &SampleReceiver,
    got: Seq<Option<Single>>,
    more: Seq<Option<Single>>,
)
    requires
        answers(a, b, got),
        answers(b, c, more),
    ensures
        answers(a, c, got + more),
{
    lemma_arrived_join(got, more);
    lemma_arrived_len(got);
    assert forall|k: int|
        0 <= k < (got + more).len() && received(a).len() + k < stock(a) implies #[trigger] (got
        + more)[k] is Some by {
        if k < got.len() {
            assert(got[k] is Some);
        } else {
            assert(more[k - got.len()] is Some);
        }
    }
    assert((received(a) + arrived(got)) + arrived(more) =~= received(a) + (arrived(got) + arrived(
        more,
    )));
}

proof fn lemma_arrived_join(got: Seq<Option<Single>>, more: Seq<Option<Single>>)
    ensures
        arrived(got + more) == arrived(got) + arrived(more),
    decreases more.len(),
{
    if more.len() == 0 {
        assert(got + more =~= got);
        assert(arrived(got) + arrived(more) =~= arrived(got));
    } else {
        lemma_arrived_join(got, more.drop_last());
        assert((got + more).drop_last() =~= got + more.drop_last());
        assert(arrived(got + more) =~= arrived(got) + arrived(more));
    }
}

proof fn lemma_held_join(last: Single, got: Seq<Option<Single>>, more: Seq<Option<Single>>)
    ensures
        held(held(last, got), more) == held(last, got + more),
{
    if more.len() == 0 {
        assert(got + more =~= got);
    }
}

/// Rounding moves what does not become infinite by at most one part in `2^53`, or by one unit.
proof fn lemma_round_double(n: nat, d: nat)
    requires
        d > 0,
        round_magnitude(52, n, d) < 0x7ff0_0000_0000_0000,
    ensures
        0x20_0000_0000_0000 * miss(magnitude(52, round_magnitude(52, n, d)) as int, n, d) <= n
            + 0x20_0000_0000_0000 * d,
{
    lemma2_to64();
    lemma2_to64_rest();
    lemma_round_parts(52, n, d);
    let e: nat = binade(52, n, d);
    let far: int = miss(magnitude(52, round_magnitude(52, n, d)) as int, n, d);
    let p: int = pow2(e) as int;
    let dp: int = d * p;
    if e > 0 {
        lemma_pow2_sum(52, e);
        assert(d * pow2(52 + e) == 0x10_0000_0000_0000 * dp) by (nonlinear_arith)
            requires
                pow2(52 + e) == 0x10_0000_0000_0000 * p,
                dp == d * p,
        ;
    } else {
        assert(d * 1 == d);
    }
}

/// A rate is held exactly.
proof fn lemma_rate_is_exact(v: u32)
    ensures
        size(Double::from_u32(v)) == v * pow2(1074),
{
    lemma_large();
    lemma2_to64();
    lemma2_to64_rest();
    lemma_one();
    let u: int = pow2(1074) as int;
    assert(v * u <= 0x1_0000_0000 * u) by (nonlinear_arith)
        requires
            0 <= v <= 0xffff_ffff,
            u > 0,
    ;
    lemma_round_exact(52, v as nat, 1074, 0x41f0_0000_0000_0000);
    lemma_rate(v);
}

/// What is left of a position after its whole steps is held exactly.
proof fn lemma_fraction_is_exact(p: Double)
    requires
        p.bits < 0x4340_0000_0000_0000,
    ensures
        size(fraction(p)) == size(p) % pow2(1074),
        fraction(p).bits < Double::one().bits,
    decreases p.bits,
{
    let u: nat = pow2(1074);
    lemma_one();
    if p.bits < Double::one().bits {
        lemma_below_one(p);
        lemma_order(p, Double::one());
        lemma_div_unique(size(p), u, 0, size(p));
    } else {
        let q = p.minus(Double::one());
        lemma_one_less(p);
        lemma_step_down(p);
        lemma_fraction_is_exact(q);
        let a: nat = size(q) / u;
        let r: nat = size(q) % u;
        lemma_fundamental_div_mod(size(q) as int, u as int);
        assert(size(p) == (a + 1) * u + r) by (nonlinear_arith)
            requires
                size(p) == size(q) + u,
                size(q) == u * a + r,
        ;
        lemma_div_unique(size(p), u, a + 1, r);
    }
}

/// One frame: what was taken and what is left add up to the position and the ratio, up to rounding.
proof fn lemma_frame(pos: Double, ratio: Double)
    requires
        pos.bits < Double::one().bits,
        ratio.bits <= 0x41f0_0000_0000_0000,
    ensures
        ({
            let q = pos.plus(ratio);
            let s: int = (whole(q) * pow2(1074) + size(fraction(q))) as int;
            let exact: int = (size(pos) + size(ratio)) as int;
            &&& fraction(q).bits < Double::one().bits
            &&& size(fraction(q)) < pow2(1074)
            &&& size(pos) < pow2(1074)
            &&& 0x20_0000_0000_0000 * (s - exact) <= exact + 0x20_0000_0000_0000
            &&& 0x20_0000_0000_0000 * (exact - s) <= exact + 0x20_0000_0000_0000
        }),
{
    reveal(crate::float::added);
    let u: nat = pow2(1074);
    let q = pos.plus(ratio);
    lemma_one();
    lemma_moved_on(pos, ratio);
    lemma_fraction_is_exact(q);
    lemma_order(fraction(q), Double::one());
    lemma_order(pos, Double::one());
    lemma_fundamental_div_mod(size(q) as int, u as int);
    let a: int = whole(q) as int;
    assert(a * u == u * a) by (nonlinear_arith);
    let n: nat = size(pos) + size(ratio);
    if n == 0 {
        lemma_magnitude_zero(52, 0);
        assert(q.bits == 0);
    } else {
        lemma_round_double(n, 1);
        assert(q.bits == round_magnitude(52, n, 1));
        assert(size(q) * 1 == size(q));
    }
}

/// After `f` frames, what was taken and what is left add up to `f` times the ratio, up to rounding.
proof fn lemma_course(s: &MonitorOutput, f: nat)
    requires
        s.pos == Double::zero(),
        s.ratio.bits <= 0x41f0_0000_0000_0000,
    ensures
        ({
            let u: int = pow2(1074) as int;
            let sum: int = s.due(f) * u + size(s.pos_at(f));
            let r: int = size(s.ratio) as int;
            let slack: int = f * (r + 2 * u);
            &&& s.pos_at(f).bits < Double::one().bits
            &&& size(s.pos_at(f)) < u
            &&& 0x20_0000_0000_0000 * (sum - f * r) <= slack
            &&& 0x20_0000_0000_0000 * (f * r - sum) <= slack
        }),
    decreases f,
{
    let u: int = pow2(1074) as int;
    let r: int = size(s.ratio) as int;
    lemma_one();
    lemma_unit_is_large();
    if f == 0 {
        lemma_magnitude_zero(52, 0);
        assert(0 * u == 0 && 0 * r == 0 && 0 * (r + 2 * u) == 0);
    } else {
        let g: nat = (f - 1) as nat;
        lemma_course(s, g);
        let pos = s.pos_at(g);
        lemma_frame(pos, s.ratio);
        let q = pos.plus(s.ratio);
        let w: int = whole(q) as int;
        let d: int = s.due(g) as int;
        assert((d + w) * u == d * u + w * u) by (nonlinear_arith);
        let gi: int = g as int;
        assert((gi + 1) * r == gi * r + r) by (nonlinear_arith);
        let t: int = r + 2 * u;
        assert((gi + 1) * t == gi * t + t) by (nonlinear_arith);
    }
}

proof fn lemma_unit_is_large()
    ensures
        pow2(1074) >= 0x20_0000_0000_0000,
{
    lemma2_to64();
    lemma2_to64_rest();
    crate::arith::lemma_pow2_monotone(53, 1074);
}

/// The monitor keeps pace with the signal, whatever the two rates: after any number of frames it has
/// taken as many samples as the signal has gone on by in that time, up to one and rounding. With
/// `f` frames at the monitor's rate, that is `f` times the signal's rate over the monitor's.
pub proof fn law_monitor_keeps_pace(s: &MonitorOutput, out_rate: u32, monitor_rate: u32, f: nat)
    requires
        monitor_rate > 0,
        s.starts(out_rate, monitor_rate),
    ensures
        ({
            let k: int = 0x20_0000_0000_0000;
            let taken: int = s.due(f) * monitor_rate;
            let gone: int = f * out_rate;
            let slack: int = f * (3 * out_rate + 5 * monitor_rate);
            &&& k * (taken - gone) <= slack
            &&& k * (gone - taken) <= k * monitor_rate + slack
        }),
{
    reveal(crate::float::divided);
    let u: int = pow2(1074) as int;
    let k: int = 0x20_0000_0000_0000;
    let a: int = out_rate as int;
    let b: int = monitor_rate as int;
    let x = Double::from_u32(out_rate);
    let y = Double::from_u32(monitor_rate);
    lemma_one();
    lemma_unit_is_large();
    lemma_rate(out_rate);
    lemma_rate(monitor_rate);
    lemma_order(Double::one(), y);
    lemma_rate_is_exact(out_rate);
    lemma_rate_is_exact(monitor_rate);
    lemma_ratio(out_rate, monitor_rate);
    let r: int = size(s.ratio) as int;
    let n: nat = size(x) * pow2(1074);
    let d: nat = size(y);
    assert(d > 0);
    lemma_round_double(n, d);
    // the ratio
    let rb: int = r * b;
    let au: int = a * u;
    lemma_grouped(r, b, u);
    assert(r * d == rb * u);
    assert(n == au * u);
    let bu: int = b * u;
    assert(k * (rb - au) <= au + k * b) by {
        lemma_unit_cancels(k * (rb - au), au + k * b, u);
        assert((k * (rb - au)) * u == k * (rb * u - au * u)) by (nonlinear_arith);
        assert((au + k * b) * u == au * u + k * bu) by (nonlinear_arith)
            requires
                bu == b * u,
        ;
    }
    assert(k * (au - rb) <= au + k * b) by {
        lemma_unit_cancels(k * (au - rb), au + k * b, u);
        assert((k * (au - rb)) * u == k * (au * u - rb * u)) by (nonlinear_arith);
        assert((au + k * b) * u == au * u + k * bu) by (nonlinear_arith)
            requires
                bu == b * u,
        ;
    }
    assert(k * b <= bu) by (nonlinear_arith)
        requires
            bu == b * u,
            k <= u,
            b >= 0,
    ;
    // the frames
    lemma_course(s, f);
    let p: int = size(s.pos_at(f)) as int;
    let due: int = s.due(f) as int;
    let sum: int = due * u + p;
    let fi: int = f as int;
    let fr: int = fi * r;
    let slack: int = fi * (r + 2 * u);
    lemma_pace(k, u, a, b, r, rb, au, bu, due, p, sum, fi, fr, slack);
}

/// A positive factor falls out of both sides.
proof fn lemma_unit_cancels(x: int, y: int, u: int)
    requires
        u > 0,
    ensures
        x * u <= y * u ==> x <= y,
{
    if x * u <= y * u {
        assert(x <= y) by (nonlinear_arith)
            requires
                x * u <= y * u,
                u > 0,
        ;
    }
}

/// From the course of the position to the pace of the monitor.
proof fn lemma_pace(
    k: int,
    u: int,
    a: int,
    b: int,
    r: int,
    rb: int,
    au: int,
    bu: int,
    due: int,
    p: int,
    sum: int,
    f: int,
    fr: int,
    slack: int,
)
    requires
        k == 0x20_0000_0000_0000,
        u >= k,
        a >= 0,
        b > 0,
        r >= 0,
        f >= 0,
        rb == r * b,
        au == a * u,
        bu == b * u,
        fr == f * r,
        slack == f * (r + 2 * u),
        sum == due * u + p,
        0 <= p < u,
        k * (sum - fr) <= slack,
        k * (fr - sum) <= slack,
        k * (rb - au) <= au + bu,
        k * (au - rb) <= au + bu,
    ensures
        k * (due * b - f * a) <= f * (3 * a + 5 * b),
        k * (f * a - due * b) <= k * b + f * (3 * a + 5 * b),
{
    let fau: int = f * au;
    let fbu: int = f * bu;
    let frb: int = f * rb;
    let sb: int = sum * b;
    let pb: int = p * b;
    let db: int = due * b;
    // the slack, times the rate
    let ru: int = r + 2 * u;
    assert(ru * b == rb + 2 * bu) by (nonlinear_arith)
        requires
            ru == r + 2 * u,
            rb == r * b,
            bu == b * u,
    ;
    lemma_grouped(f, ru, b);
    assert(f * (rb + 2 * bu) == frb + 2 * fbu) by (nonlinear_arith)
        requires
            frb == f * rb,
            fbu == f * bu,
    ;
    assert(slack * b == frb + 2 * fbu);
    lemma_grouped(f, r, b);
    assert(fr * b == frb);
    lemma_scaled(k * (sum - fr), slack, b);
    lemma_scaled(k * (fr - sum), slack, b);
    assert((k * (sum - fr)) * b == k * (sb - fr * b)) by (nonlinear_arith)
        requires
            sb == sum * b,
    ;
    assert((k * (fr - sum)) * b == k * (fr * b - sb)) by (nonlinear_arith)
        requires
            sb == sum * b,
    ;
    // the ratio, times the frames
    lemma_scaled(k * (rb - au), au + bu, f);
    lemma_scaled(k * (au - rb), au + bu, f);
    assert((k * (rb - au)) * f == k * (frb - fau)) by (nonlinear_arith)
        requires
            frb == f * rb,
            fau == f * au,
    ;
    assert((k * (au - rb)) * f == k * (fau - frb)) by (nonlinear_arith)
        requires
            frb == f * rb,
            fau == f * au,
    ;
    assert((au + bu) * f == fau + fbu) by (nonlinear_arith)
        requires
            fau == f * au,
            fbu == f * bu,
    ;
    lemma_scaled(0, a, u);
    lemma_scaled(0, b, u);
    lemma_scaled(0, au, f);
    lemma_scaled(0, bu, f);
    assert(0 * u == 0 && 0 * f == 0);
    assert(au * f == fau && bu * f == fbu) by (nonlinear_arith)
        requires
            fau == f * au,
            fbu == f * bu,
    ;
    assert(frb <= 2 * fau + fbu);
    assert(k * (sb - fau) <= 3 * fau + 5 * fbu);
    assert(k * (fau - sb) <= 3 * fau + 5 * fbu);
    // without the unit
    let du: int = due * u;
    assert((du + p) * b == du * b + pb) by (nonlinear_arith)
        requires
            pb == p * b,
    ;
    lemma_grouped(due, u, b);
    assert(sb == db * u + pb);
    assert(0 <= pb <= bu) by (nonlinear_arith)
        requires
            pb == p * b,
            bu == b * u,
            0 <= p < u,
            b > 0,
    ;
    let fa: int = f * a;
    lemma_grouped(f, a, u);
    assert(fau == fa * u);
    let both: int = 3 * a + 5 * b;
    let top: int = f * both;
    assert(both * u == 3 * au + 5 * bu) by (nonlinear_arith)
        requires
            both == 3 * a + 5 * b,
            au == a * u,
            bu == b * u,
    ;
    lemma_grouped(f, both, u);
    assert(f * (3 * au + 5 * bu) == 3 * fau + 5 * fbu) by (nonlinear_arith)
        requires
            fau == f * au,
            fbu == f * bu,
    ;
    assert(top * u == 3 * fau + 5 * fbu);
    lemma_unit_cancels(k * (db - fa), top, u);
    assert((k * (db - fa)) * u == k * (db * u - fa * u)) by (nonlinear_arith);
    lemma_unit_cancels(k * (fa - db), k * b + top, u);
    assert((k * (fa - db)) * u == k * (fa * u - db * u)) by (nonlinear_arith);
    assert((k * b + top) * u == k * bu + top * u) by (nonlinear_arith)
        requires
            bu == b * u,
    ;
}

/// Factors may be grouped as one likes.
proof fn lemma_grouped(x: int, y: int, z: int)
    ensures
        (x * y) * z == x * (y * z),
        (x * y) * z == (x * z) * y,
{
    assert((x * y) * z == x * (y * z)) by (nonlinear_arith);
    assert(y * z == z * y) by (nonlinear_arith);
    assert((x * z) * y == x * (z * y)) by (nonlinear_arith);
}

/// Both sides times a number that is not negative.
proof fn lemma_scaled(x: int, y: int, m: int)
    requires
        x <= y,
        m >= 0,
    ensures
        x * m <= y * m,
{
    assert(x * m <= y * m) by (nonlinear_arith)
        requires
            x <= y,
            m >= 0,
    ;
}

} // verus!
