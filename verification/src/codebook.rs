//! The levels that quantize a coordinate best, and the rotations before it.
//!
//! The levels are a fixed point: each is the mean of what lies between the edges beside it, and
//! each edge lies halfway between two levels. Numbers are doubles in their bit patterns, and
//! powers of e come from outside.

use vstd::prelude::*;

use crate::double;
use crate::double::{ONE, SIGN};
use crate::kvquant;
use crate::number;
use crate::sampler;
use crate::sampler::Rng;
use crate::sampling;
use crate::single;

verus! {

pub const MINUS_ONE: u64 = 0xBFF0_0000_0000_0000;

pub const HALF: u64 = 0x3FE0_0000_0000_0000;

pub const TWO: u64 = 0x4000_0000_0000_0000;

/// 3.5: the first levels lie within so many deviations.
pub const REACH: u64 = 0x400C_0000_0000_0000;

/// 12: what lies so many deviations away has no mass.
pub const OUTER: u64 = 0x4028_0000_0000_0000;

pub const SQRT_2: u64 = 0x3FF6_A09E_667F_3BCD;

/// The square root of a full turn.
pub const SQRT_TAU: u64 = 0x4004_0D93_1FF6_2705;

/// A full turn.
pub const TAU: u64 = 0x4019_21FB_5444_2D18;

/// 1e-15: an interval of less mass keeps its level.
pub const LEAST_MASS: u64 = 0x3CD2_03AF_9EE7_5616;

/// 1e-12: levels that move less have settled.
pub const LEAST_SHIFT: u64 = 0x3D71_9799_812D_EA11;

/// The most rounds.
pub const ROUNDS: u32 = 300;

// The coefficients of the error function's approximation.
pub const ERF_P: u64 = 0x3FD4_F740_A93D_7B8C;

pub const ERF_1: u64 = 0x3FD0_4F20_C6EC_5A7E;

pub const ERF_2: u64 = 0x3FD2_3531_CC3C_1469;

pub const ERF_3: u64 = 0x3FF6_BE1C_55BA_E157;

pub const ERF_4: u64 = 0x3FF7_401C_5701_4C39;

pub const ERF_5: u64 = 0x3FF0_FB84_4255_A12D;

// ---- signs and order ---------------------------------------------------------------------------

/// The number with the other sign.
pub open spec fn negated(b: u64) -> u64 {
    if b >= SIGN {
        (b - SIGN) as u64
    } else {
        (b + SIGN) as u64
    }
}

fn negate(b: u64) -> (r: u64)
    ensures
        r == negated(b),
{
    if b >= SIGN {
        b - SIGN
    } else {
        b + SIGN
    }
}

/// The number without its sign.
pub open spec fn absolute(b: u64) -> u64 {
    if b >= SIGN {
        (b - SIGN) as u64
    } else {
        b
    }
}

fn magnitude(b: u64) -> (r: u64)
    ensures
        r == absolute(b),
{
    if b >= SIGN {
        b - SIGN
    } else {
        b
    }
}

pub open spec fn minus(a: u64, b: u64) -> u64 {
    double::sum_of(a, negated(b))
}

fn subtract(a: u64, b: u64) -> (r: u64)
    ensures
        r == minus(a, b),
{
    double::sum(a, negate(b))
}

/// `a` is the smaller number.
pub open spec fn below(a: u64, b: u64) -> bool {
    double::at_most(a, b) && !double::at_most(b, a)
}

fn is_below(a: u64, b: u64) -> (r: bool)
    ensures
        r == below(a, b),
{
    double::double_at_most(a, b) && !double::double_at_most(b, a)
}

/// A small count as a double.
pub open spec fn real_of(n: nat) -> u64 {
    double::wide(single::single_of(n))
}

fn count(n: usize) -> (r: u64)
    ensures
        r == real_of(n as nat),
{
    double::widen(single::from_uint(n as u64))
}

// ---- a normal variable -------------------------------------------------------------------------

/// A place in units of the error function.
pub open spec fn erf_place(sigma: u64, x: u64) -> u64 {
    double::quotient_of(x, double::product_of(sigma, SQRT_2))
}

/// The exponent of the power that the mass below a place needs.
pub open spec fn mass_exponent(sigma: u64, x: u64) -> u64 {
    let a = absolute(erf_place(sigma, x));
    double::product_of(negated(a), a)
}

/// The polynomial of the error function's approximation.
pub open spec fn erf_poly(t: u64) -> u64 {
    let a = minus(double::product_of(ERF_5, t), ERF_4);
    let b = double::sum_of(double::product_of(a, t), ERF_3);
    let c = minus(double::product_of(b, t), ERF_2);
    double::sum_of(double::product_of(c, t), ERF_1)
}

/// The error function, approximated, given the power of its exponent.
pub open spec fn erf_of(x: u64, power: u64) -> u64 {
    let t = double::quotient_of(
        ONE,
        double::sum_of(ONE, double::product_of(ERF_P, absolute(x))),
    );
    let y = minus(
        ONE,
        double::product_of(double::product_of(erf_poly(t), t), power),
    );
    double::product_of(
        if below(x, 0) {
            MINUS_ONE
        } else {
            ONE
        },
        y,
    )
}

/// The mass below a place.
pub open spec fn mass_below(sigma: u64, x: u64, power: u64) -> u64 {
    double::product_of(HALF, double::sum_of(ONE, erf_of(erf_place(sigma, x), power)))
}

/// The exponent of the power that the density at a place needs.
pub open spec fn density_exponent(sigma: u64, x: u64) -> u64 {
    double::quotient_of(
        negated(double::product_of(x, x)),
        double::product_of(double::product_of(TWO, sigma), sigma),
    )
}

/// The density, given the power of its exponent.
pub open spec fn density(sigma: u64, power: u64) -> u64 {
    double::quotient_of(power, double::product_of(sigma, SQRT_TAU))
}

fn place_in(sigma: u64, x: u64) -> (r: u64)
    ensures
        r == erf_place(sigma, x),
{
    double::quotient(x, double::product(sigma, SQRT_2))
}

fn mass_to(sigma: u64, x: u64, power: u64) -> (r: u64)
    ensures
        r == mass_below(sigma, x, power),
{
    let z: u64 = place_in(sigma, x);
    let t: u64 = double::quotient(ONE, double::sum(ONE, double::product(ERF_P, magnitude(z))));
    let a: u64 = subtract(double::product(ERF_5, t), ERF_4);
    let b: u64 = double::sum(double::product(a, t), ERF_3);
    let c: u64 = subtract(double::product(b, t), ERF_2);
    let poly: u64 = double::sum(double::product(c, t), ERF_1);
    let y: u64 = subtract(ONE, double::product(double::product(poly, t), power));
    let sign: u64 = if is_below(z, 0) {
        MINUS_ONE
    } else {
        ONE
    };
    double::product(HALF, double::sum(ONE, double::product(sign, y)))
}

fn density_at(sigma: u64, power: u64) -> (r: u64)
    ensures
        r == density(sigma, power),
{
    double::quotient(power, double::product(sigma, SQRT_TAU))
}

// ---- levels and edges --------------------------------------------------------------------------

/// Edge `i`: halfway between two levels, or far outside.
pub open spec fn edge(sigma: u64, c: Seq<u64>, i: int) -> u64 {
    if i <= 0 {
        negated(double::product_of(OUTER, sigma))
    } else if i >= c.len() {
        double::product_of(OUTER, sigma)
    } else {
        double::quotient_of(double::sum_of(c[i - 1], c[i]), TWO)
    }
}

fn edge_at(sigma: u64, c: &Vec<u64>, i: usize) -> (r: u64)
    ensures
        r == edge(sigma, c@, i as int),
{
    if i == 0 {
        negate(double::product(OUTER, sigma))
    } else if i >= c.len() {
        double::product(OUTER, sigma)
    } else {
        double::quotient(double::sum(c[i - 1], c[i]), TWO)
    }
}

/// The powers that the edges need, one of each kind for every edge.
#[derive(Debug)]
pub struct Powers {
    pub mass: Vec<u64>,
    pub density: Vec<u64>,
}

/// What the mass is between edges `i` and `i + 1`.
pub open spec fn mass_between(sigma: u64, c: Seq<u64>, i: int, p: Powers) -> u64 {
    minus(
        mass_below(sigma, edge(sigma, c, i + 1), p.mass@[i + 1]),
        mass_below(sigma, edge(sigma, c, i), p.mass@[i]),
    )
}

/// The first moment between edges `i` and `i + 1`.
pub open spec fn moment_between(sigma: u64, i: int, p: Powers) -> u64 {
    double::product_of(
        double::product_of(sigma, sigma),
        minus(density(sigma, p.density@[i]), density(sigma, p.density@[i + 1])),
    )
}

/// The mean between edges `i` and `i + 1`; the level stays where there is next to no mass.
pub open spec fn next_level(sigma: u64, c: Seq<u64>, i: int, p: Powers) -> u64 {
    let m = mass_between(sigma, c, i, p);
    if below(LEAST_MASS, m) {
        double::quotient_of(moment_between(sigma, i, p), m)
    } else {
        c[i]
    }
}

pub open spec fn next_levels(sigma: u64, c: Seq<u64>, p: Powers) -> Seq<u64> {
    Seq::new(c.len(), |i: int| next_level(sigma, c, i, p))
}

// ---- ascending levels --------------------------------------------------------------------------

/// Each level lies below those behind it.
pub open spec fn ascending(c: Seq<u64>) -> bool {
    forall|i: int, j: int| 0 <= i < j < c.len() ==> below(#[trigger] c[i], #[trigger] c[j])
}

/// Each single lies below those behind it.
pub open spec fn rising(v: Seq<u32>) -> bool {
    forall|i: int, j: int| 0 <= i < j < v.len() ==> sampler::less(#[trigger] v[i], #[trigger] v[j])
}

/// Of the powers that a round is given: every level moves to a place between the edges beside it,
/// as the mean of an interval does.
pub open spec fn between_edges(sigma: u64, c: Seq<u64>, p: Powers) -> bool {
    forall|i: int|
        0 <= i < c.len() ==> {
            let x = #[trigger] next_level(sigma, c, i, p);
            below(edge(sigma, c, i), x) && below(x, edge(sigma, c, i + 1))
        }
}

proof fn lemma_next_below(sigma: u64, c: Seq<u64>, p: Powers, i: int, j: int)
    requires
        between_edges(sigma, c, p),
        0 <= i < j < c.len(),
    ensures
        below(next_level(sigma, c, i, p), next_level(sigma, c, j, p)),
    decreases j - i,
{
    let x = next_level(sigma, c, j, p);
    assert(below(edge(sigma, c, j), x));
    assert(below(next_level(sigma, c, j - 1, p), edge(sigma, c, j - 1 + 1)));
    if i < j - 1 {
        lemma_next_below(sigma, c, p, i, j - 1);
    }
}

/// A round makes the levels ascend, wherever they were, if its powers put every level between the
/// edges beside it.
pub proof fn law_levels_ascend(sigma: u64, c: Seq<u64>, p: Powers)
    requires
        between_edges(sigma, c, p),
    ensures
        ascending(next_levels(sigma, c, p)),
{
    let v = next_levels(sigma, c, p);
    assert forall|i: int, j: int| 0 <= i < j < v.len() implies below(
        #[trigger] v[i],
        #[trigger] v[j],
    ) by {
        lemma_next_below(sigma, c, p, i, j);
    }
}

/// Two different singles lie from level `i` to the next.
pub open spec fn singles_between(c: Seq<u64>, i: int) -> bool {
    exists|s: u32, t: u32| #[trigger] stand_between(c[i], s, t, c[i + 1])
}

/// The singles `s` and `t`, in this order, lie from `a` to `b`.
pub open spec fn stand_between(a: u64, s: u32, t: u32, b: u64) -> bool {
    &&& double::mag(a) < double::INF && double::mag(b) < double::INF
    &&& single::mag(s) < single::INF && single::mag(t) < single::INF
    &&& double::signed_units(a) <= double::single_units(s)
    &&& sampler::less(s, t)
    &&& double::single_units(t) <= double::signed_units(b)
}

/// Neighbouring levels lie so far apart that singles tell them apart.
pub open spec fn apart(c: Seq<u64>) -> bool {
    forall|i: int| 0 <= i < c.len() - 1 ==> #[trigger] singles_between(c, i)
}

proof fn lemma_rising(c: Seq<u64>, v: Seq<u32>, i: int, j: int)
    requires
        apart(c),
        v.len() == c.len(),
        forall|k: int| 0 <= k < c.len() ==> number::narrows(c[k], #[trigger] v[k]),
        0 <= i < j < c.len(),
    ensures
        sampler::less(v[i], v[j]),
    decreases j - i,
{
    assert(singles_between(c, j - 1));
    let (s, t) = choose|s: u32, t: u32| #[trigger] stand_between(c[j - 1], s, t, c[j - 1 + 1]);
    assert(number::narrows(c[j - 1], v[j - 1]) && number::narrows(c[j], v[j]));
    double::law_narrowing_crosses_no_single(c[j - 1], v[j - 1], s);
    double::law_narrowing_crosses_no_single(c[j], v[j], t);
    if i < j - 1 {
        lemma_rising(c, v, i, j - 1);
    }
}

/// How far the first `n` levels moved at most.
pub open spec fn shift(a: Seq<u64>, b: Seq<u64>, n: int) -> u64
    decreases n,
{
    if n <= 0 {
        0
    } else {
        let d = absolute(minus(a[n - 1], b[n - 1]));
        let before = shift(a, b, n - 1);
        if below(before, d) {
            d
        } else {
            before
        }
    }
}

/// Where level `i` of `n` starts.
pub open spec fn first_level(sigma: u64, n: nat, i: int) -> u64 {
    let lo = double::product_of(negated(REACH), sigma);
    let hi = double::product_of(REACH, sigma);
    double::sum_of(
        lo,
        double::quotient_of(
            double::product_of(minus(hi, lo), double::sum_of(real_of(i as nat), HALF)),
            real_of(n),
        ),
    )
}

/// What is left of the square error between edges `i` and `i + 1`.
pub open spec fn error_between(sigma: u64, c: Seq<u64>, i: int, p: Powers) -> u64 {
    let mass = mass_between(sigma, c, i, p);
    let m1 = moment_between(sigma, i, p);
    let m2 = double::product_of(
        double::product_of(sigma, sigma),
        minus(
            double::sum_of(
                mass,
                double::product_of(edge(sigma, c, i), density(sigma, p.density@[i])),
            ),
            double::product_of(edge(sigma, c, i + 1), density(sigma, p.density@[i + 1])),
        ),
    );
    double::sum_of(
        minus(m2, double::product_of(double::product_of(TWO, c[i]), m1)),
        double::product_of(double::product_of(c[i], c[i]), mass),
    )
}

/// The square errors of the first `n` intervals.
pub open spec fn errors(sigma: u64, c: Seq<u64>, n: int, p: Powers) -> u64
    decreases n,
{
    if n <= 0 {
        0
    } else {
        double::sum_of(errors(sigma, c, n - 1, p), error_between(sigma, c, n - 1, p))
    }
}

/// Levels on the way to a fixed point.
#[derive(Debug)]
pub struct Lloyd {
    pub sigma: u64,
    pub c: Vec<u64>,
    /// Rounds made.
    pub rounds: u32,
}

impl Lloyd {
    /// Evenly spaced levels, as many as `bits` bits can tell apart.
    pub fn new(sigma: u64, bits: u32) -> (r: Lloyd)
        requires
            1 <= bits <= 8,
        ensures
            r.sigma == sigma,
            r.rounds == 0,
            r.c@ == Seq::new(
                (1u32 << bits) as nat,
                |i: int| first_level(sigma, (1u32 << bits) as nat, i),
            ),
    {
        proof {
            assert(1u32 << bits <= 256) by (bit_vector)
                requires
                    1 <= bits <= 8,
            ;
        }
        let n: usize = (1u32 << bits) as usize;
        let lo: u64 = double::product(negate(REACH), sigma);
        let hi: u64 = double::product(REACH, sigma);
        let span: u64 = subtract(hi, lo);
        let whole: u64 = count(n);
        let ghost want = Seq::new(n as nat, |i: int| first_level(sigma, n as nat, i));
        let mut c: Vec<u64> = Vec::new();
        let mut i: usize = 0;
        while i < n
            invariant
                i <= n,
                lo == double::product_of(negated(REACH), sigma),
                hi == double::product_of(REACH, sigma),
                span == minus(hi, lo),
                whole == real_of(n as nat),
                want == Seq::new(n as nat, |i: int| first_level(sigma, n as nat, i)),
                c@ == want.take(i as int),
            decreases n - i,
        {
            let at: u64 = double::product(span, double::sum(count(i), HALF));
            c.push(double::sum(lo, double::quotient(at, whole)));
            i += 1;
            assert(c@ =~= want.take(i as int));
        }
        assert(c@ =~= want);
        Lloyd { sigma, c, rounds: 0 }
    }

    /// Given levels, as singles.
    pub fn of_levels(sigma: u64, levels: &[u32]) -> (r: Lloyd)
        ensures
            r.sigma == sigma,
            r.rounds == 0,
            r.c@ == Seq::new(levels@.len(), |i: int| double::wide(levels@[i])),
    {
        let ghost want = Seq::new(levels@.len(), |i: int| double::wide(levels@[i]));
        let mut c: Vec<u64> = Vec::new();
        let mut i: usize = 0;
        while i < levels.len()
            invariant
                i <= levels@.len(),
                want == Seq::new(levels@.len(), |i: int| double::wide(levels@[i])),
                c@ == want.take(i as int),
            decreases levels@.len() - i,
        {
            c.push(double::widen(levels[i]));
            i += 1;
            assert(c@ =~= want.take(i as int));
        }
        assert(c@ =~= want);
        Lloyd { sigma, c, rounds: 0 }
    }

    /// The exponents that the edges need: those of their masses, and those of their densities.
    pub fn exponents(&self) -> (r: Powers)
        requires
            self.c@.len() < usize::MAX,
        ensures
            r.mass@ == Seq::new(
                self.c@.len() + 1,
                |i: int| mass_exponent(self.sigma, edge(self.sigma, self.c@, i)),
            ),
            r.density@ == Seq::new(
                self.c@.len() + 1,
                |i: int| density_exponent(self.sigma, edge(self.sigma, self.c@, i)),
            ),
    {
        let n: usize = self.c.len() + 1;
        let sigma: u64 = self.sigma;
        let below_all: u64 = double::product(double::product(TWO, sigma), sigma);
        let ghost masses = Seq::new(
            n as nat,
            |i: int| mass_exponent(sigma, edge(sigma, self.c@, i)),
        );
        let ghost densities = Seq::new(
            n as nat,
            |i: int| density_exponent(sigma, edge(sigma, self.c@, i)),
        );
        let mut mass: Vec<u64> = Vec::new();
        let mut density: Vec<u64> = Vec::new();
        let mut i: usize = 0;
        while i < n
            invariant
                i <= n,
                n == self.c@.len() + 1,
                sigma == self.sigma,
                below_all == double::product_of(double::product_of(TWO, sigma), sigma),
                masses == Seq::new(
                    n as nat,
                    |i: int| mass_exponent(sigma, edge(sigma, self.c@, i)),
                ),
                densities == Seq::new(
                    n as nat,
                    |i: int| density_exponent(sigma, edge(sigma, self.c@, i)),
                ),
                mass@ == masses.take(i as int),
                density@ == densities.take(i as int),
            decreases n - i,
        {
            let e: u64 = edge_at(sigma, &self.c, i);
            let z: u64 = magnitude(place_in(sigma, e));
            mass.push(double::product(negate(z), z));
            density.push(double::quotient(negate(double::product(e, e)), below_all));
            i += 1;
            assert(mass@ =~= masses.take(i as int));
            assert(density@ =~= densities.take(i as int));
        }
        assert(mass@ =~= masses);
        assert(density@ =~= densities);
        Powers { mass, density }
    }

    /// There is a power of each kind for every edge.
    pub open spec fn powered(&self, p: Powers) -> bool {
        &&& p.mass@.len() == self.c@.len() + 1
        &&& p.density@.len() == self.c@.len() + 1
    }

    fn mass_at(&self, p: &Powers, i: usize) -> (r: u64)
        requires
            self.powered(*p),
            i < self.c@.len(),
        ensures
            r == mass_between(self.sigma, self.c@, i as int, *p),
    {
        let k: usize = self.c.len();
        subtract(
            mass_to(self.sigma, edge_at(self.sigma, &self.c, i + 1), p.mass[i + 1]),
            mass_to(self.sigma, edge_at(self.sigma, &self.c, i), p.mass[i]),
        )
    }

    fn moment_at(&self, p: &Powers, i: usize) -> (r: u64)
        requires
            self.powered(*p),
            i < self.c@.len(),
        ensures
            r == moment_between(self.sigma, i as int, *p),
    {
        let k: usize = self.c.len();
        double::product(
            double::product(self.sigma, self.sigma),
            subtract(
                density_at(self.sigma, p.density[i]),
                density_at(self.sigma, p.density[i + 1]),
            ),
        )
    }

    /// Makes a round: every level moves to the mean between its edges. Tells whether to stop:
    /// the levels have settled, or enough rounds were made.
    pub fn step(&mut self, p: &Powers) -> (r: bool)
        requires
            old(self).powered(*p),
            old(self).rounds < ROUNDS,
        ensures
            final(self).sigma == old(self).sigma,
            final(self).rounds == old(self).rounds + 1,
            final(self).c@ == next_levels(old(self).sigma, old(self).c@, *p),
            between_edges(old(self).sigma, old(self).c@, *p) ==> ascending(final(self).c@),
            r == (below(
                shift(final(self).c@, old(self).c@, old(self).c@.len() as int),
                LEAST_SHIFT,
            ) || final(self).rounds >= ROUNDS),
    {
        let n: usize = self.c.len();
        let ghost want = next_levels(self.sigma, self.c@, *p);
        let mut next: Vec<u64> = Vec::new();
        let mut most: u64 = 0;
        let mut i: usize = 0;
        while i < n
            invariant
                i <= n,
                n == self.c@.len(),
                self.powered(*p),
                want == next_levels(self.sigma, self.c@, *p),
                next@ == want.take(i as int),
                most == shift(want, self.c@, i as int),
            decreases n - i,
        {
            let m: u64 = self.mass_at(p, i);
            let v: u64 = if is_below(LEAST_MASS, m) {
                double::quotient(self.moment_at(p, i), m)
            } else {
                self.c[i]
            };
            next.push(v);
            let d: u64 = magnitude(subtract(v, self.c[i]));
            assert(v == want[i as int]);
            if is_below(most, d) {
                most = d;
            }
            i += 1;
            assert(next@ =~= want.take(i as int));
        }
        assert(next@ =~= want);
        proof {
            if between_edges(self.sigma, self.c@, *p) {
                law_levels_ascend(self.sigma, self.c@, *p);
            }
        }
        self.c = next;
        self.rounds = self.rounds + 1;
        is_below(most, LEAST_SHIFT) || self.rounds >= ROUNDS
    }

    /// The levels, as singles, in the order in which they are held. Levels that ascend do so as
    /// singles, and none falls on another if they lie far enough apart.
    pub fn levels(&self) -> (r: Vec<u32>)
        ensures
            r@ == Seq::new(self.c@.len(), |i: int| double::narrowed(self.c@[i])),
            ascending(self.c@) ==> forall|i: int, j: int|
                0 <= i < j < r@.len() ==> sampler::at_most(#[trigger] r@[i], #[trigger] r@[j]),
            apart(self.c@) ==> rising(r@),
    {
        let ghost want = Seq::new(self.c@.len(), |i: int| double::narrowed(self.c@[i]));
        let mut out: Vec<u32> = Vec::new();
        let mut i: usize = 0;
        while i < self.c.len()
            invariant
                i <= self.c@.len(),
                want == Seq::new(self.c@.len(), |i: int| double::narrowed(self.c@[i])),
                out@ == want.take(i as int),
                forall|k: int| 0 <= k < i ==> number::narrows(self.c@[k], #[trigger] out@[k]),
            decreases self.c@.len() - i,
        {
            let v: u32 = double::narrow(self.c[i]);
            out.push(v);
            i += 1;
            assert(out@ =~= want.take(i as int));
        }
        assert(out@ =~= want);
        proof {
            let c = self.c@;
            if ascending(c) {
                assert forall|i: int, j: int| 0 <= i < j < out@.len() implies sampler::at_most(
                    #[trigger] out@[i],
                    #[trigger] out@[j],
                ) by {
                    assert(below(c[i], c[j]));
                    double::law_narrowing_keeps_order(c[i], c[j], out@[i], out@[j]);
                }
            }
            if apart(c) {
                assert forall|i: int, j: int| 0 <= i < j < out@.len() implies sampler::less(
                    #[trigger] out@[i],
                    #[trigger] out@[j],
                ) by {
                    lemma_rising(c, out@, i, j);
                }
            }
        }
        out
    }

    /// The mean square error that the levels leave.
    pub fn kvquant_expected_distortion(&self, p: &Powers) -> (r: u32)
        requires
            self.powered(*p),
        ensures
            r == double::narrowed(errors(self.sigma, self.c@, self.c@.len() as int, *p)),
    {
        let n: usize = self.c.len();
        let s2: u64 = double::product(self.sigma, self.sigma);
        let mut acc: u64 = 0;
        let mut i: usize = 0;
        while i < n
            invariant
                i <= n,
                n == self.c@.len(),
                self.powered(*p),
                s2 == double::product_of(self.sigma, self.sigma),
                acc == errors(self.sigma, self.c@, i as int, *p),
            decreases n - i,
        {
            let mass: u64 = self.mass_at(p, i);
            let m1: u64 = self.moment_at(p, i);
            let a: u64 = edge_at(self.sigma, &self.c, i);
            let b: u64 = edge_at(self.sigma, &self.c, i + 1);
            let fa: u64 = density_at(self.sigma, p.density[i]);
            let fb: u64 = density_at(self.sigma, p.density[i + 1]);
            let m2: u64 = double::product(
                s2,
                subtract(double::sum(mass, double::product(a, fa)), double::product(b, fb)),
            );
            let c0: u64 = self.c[i];
            let e: u64 = double::sum(
                subtract(m2, double::product(double::product(TWO, c0), m1)),
                double::product(double::product(c0, c0), mass),
            );
            acc = double::sum(acc, e);
            i += 1;
        }
        double::narrow(acc)
    }
}

// ---- kept levels -------------------------------------------------------------------------------

/// Levels for a coordinate, with the dimension and the width that they are for.
#[derive(Debug)]
pub struct Book {
    pub d: usize,
    pub bits: u32,
    pub levels: Vec<u32>,
}

/// Levels that were worked out once, each for its dimension and width.
#[derive(Debug)]
pub struct Codebooks {
    pub books: Vec<Book>,
}

/// The levels for a dimension and a width among books, from the `k`-th on.
pub open spec fn levels_in(books: Seq<Book>, d: usize, bits: u32, k: int) -> Option<Seq<u32>>
    decreases books.len() - k,
{
    if k < 0 || k >= books.len() {
        None
    } else if books[k].d == d && books[k].bits == bits {
        Some(books[k].levels@)
    } else {
        levels_in(books, d, bits, k + 1)
    }
}

proof fn lemma_levels_pushed(books: Seq<Book>, b: Book, d: usize, bits: u32, k: int)
    requires
        0 <= k <= books.len(),
    ensures
        levels_in(books.push(b), d, bits, k) == match levels_in(books, d, bits, k) {
            Some(v) => Some(v),
            None => if b.d == d && b.bits == bits {
                Some(b.levels@)
            } else {
                None
            },
        },
    decreases books.len() - k,
{
    let all = books.push(b);
    if k < books.len() {
        assert(all[k] == books[k]);
        lemma_levels_pushed(books, b, d, bits, k + 1);
    } else {
        assert(all[k] == b);
        assert(levels_in(all, d, bits, k + 1) is None);
    }
}

impl Codebooks {
    /// The levels that are kept for a dimension and a width.
    pub open spec fn kept(&self, d: usize, bits: u32) -> Option<Seq<u32>> {
        levels_in(self.books@, d, bits, 0)
    }

    pub fn new() -> (r: Codebooks)
        ensures
            forall|d: usize, bits: u32| (#[trigger] r.kept(d, bits)) is None,
    {
        Codebooks { books: Vec::new() }
    }

    /// The levels that are kept for a dimension and a width, if any are.
    pub fn get(&self, d: usize, bits: u32) -> (r: Option<&Vec<u32>>)
        ensures
            match r {
                Some(v) => self.kept(d, bits) == Some(v@),
                None => self.kept(d, bits) is None,
            },
    {
        let n: usize = self.books.len();
        let mut i: usize = 0;
        while i < n
            invariant
                i <= n,
                n == self.books@.len(),
                self.kept(d, bits) == levels_in(self.books@, d, bits, i as int),
            decreases n - i,
        {
            if self.books[i].d == d && self.books[i].bits == bits {
                return Some(&self.books[i].levels);
            }
            i += 1;
        }
        None
    }

    /// Keeps levels for a dimension and a width; what is kept already stays.
    pub fn keep(&mut self, d: usize, bits: u32, levels: Vec<u32>)
        ensures
            final(self).kept(d, bits) == Some(
                match old(self).kept(d, bits) {
                    Some(v) => v,
                    None => levels@,
                },
            ),
            forall|e: usize, w: u32|
                !(e == d && w == bits) ==> (#[trigger] final(self).kept(e, w)) == old(self).kept(
                    e,
                    w,
                ),
    {
        if self.get(d, bits).is_some() {
            return;
        }
        let b = Book { d, bits, levels };
        proof {
            assert forall|e: usize, w: u32| true implies #[trigger] levels_in(
                self.books@.push(b),
                e,
                w,
                0,
            ) == match levels_in(self.books@, e, w, 0) {
                Some(v) => Some(v),
                None => if e == d && w == bits {
                    Some(levels@)
                } else {
                    None
                },
            } by {
                lemma_levels_pushed(self.books@, b, e, w, 0);
            }
        }
        self.books.push(b);
    }
}

// ---- rotations ---------------------------------------------------------------------------------

/// The seed of the rotations.
pub const GIVENS_SEED: u64 = 42;

/// The state behind `i` draws.
pub open spec fn givens_state(i: int) -> u64
    decreases i,
{
    if i <= 0 {
        GIVENS_SEED
    } else {
        kvquant::splitmix_state(givens_state(i - 1))
    }
}

/// The angle of pair `i`: a share of a full turn, drawn from a fixed seed.
pub open spec fn is_angle(i: int, a: u64) -> bool {
    exists|u: u64|
        #[trigger] sampling::random_unit(givens_state(i), u) && a == double::product_of(u, TAU)
}

/// The angles of the rotations, one for each pair of `d` coordinates.
pub fn givens_angles(d: usize) -> (r: Vec<u64>)
    ensures
        r@.len() == (d + 1) / 2,
        forall|i: int| 0 <= i < r@.len() ==> is_angle(i, #[trigger] r@[i]),
{
    let n: usize = d / 2 + d % 2;
    let mut rng = Rng(GIVENS_SEED);
    let mut out: Vec<u64> = Vec::new();
    let mut i: usize = 0;
    while i < n
        invariant
            i <= n,
            rng.0 == givens_state(i as int),
            out@.len() == i,
            forall|k: int| 0 <= k < i ==> is_angle(k, #[trigger] out@[k]),
        decreases n - i,
    {
        let ghost before = rng.0;
        let u: u64 = rng.next_f64();
        assert(sampling::random_unit(before, u));
        out.push(double::product(u, TAU));
        assert(is_angle(i as int, out@[i as int]));
        i += 1;
    }
    out
}

} // verus!
