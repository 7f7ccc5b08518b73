//! Sampling of the next token: the random generator, and the choices among scored candidates.
//!
//! Scores are singles, held as their bit patterns and compared in place.

use vstd::prelude::*;

use crate::binary;
use crate::kvquant;

verus! {

/// The splitmix generator.
#[derive(Debug, Clone, Copy)]
pub struct Rng(pub u64);

impl Rng {
    pub fn new(seed: u64) -> (r: Rng)
        ensures
            r.0 == seed,
    {
        Rng(seed)
    }

    /// The next number: the state moves on, and its mix is returned.
    pub fn next_u64(&mut self) -> (r: u64)
        ensures
            final(self).0 == kvquant::splitmix_state(old(self).0),
            r == kvquant::splitmix_output(final(self).0),
    {
        kvquant::splitmix64(&mut self.0)
    }

    /// The next number from zero up to one: its upper 53 bits over two to the power 53, as the
    /// pattern of a double.
    pub fn next_f64(&mut self) -> (r: u64)
        ensures
            final(self).0 == kvquant::splitmix_state(old(self).0),
            binary::rounds(
                (kvquant::splitmix_output(final(self).0) / 2048) as nat,
                0x20_0000_0000_0000,
                53,
                -1074,
                1024,
                r as int,
            ),
    {
        let x: u64 = self.next_u64();
        unit_double(x / 2048)
    }
}

fn unit_double(m: u64) -> (r: u64)
    ensures
        binary::rounds(m as nat, 0x20_0000_0000_0000, 53, -1074, 1024, r as int),
{
    let n: Vec<u32> = crate::bignat::from_u64(m);
    let d: Vec<u32> = crate::bignat::from_u64(0x20_0000_0000_0000);
    binary::round_ratio(&n, &d, 53, -1074, 1024)
}

/// The seed that asks for one from the clock.
pub const SEED_FROM_CLOCK: u64 = 0xFFFF_FFFF;

/// How to sample. Singles are held as their patterns.
#[derive(Clone, Copy, Debug, PartialEq, Eq, Structural)]
pub struct SamplerConfig {
    /// How many candidates stay; none or fewer keeps all.
    pub top_k: i32,
    /// The share of probability that stays; one keeps all.
    pub top_p: u32,
    /// The share of the best probability that a candidate needs; zero keeps all.
    pub min_p: u32,
    /// The temperature; zero or less takes the best.
    pub temp: u32,
    pub seed: u64,
}

impl Default for SamplerConfig {
    fn default() -> (r: SamplerConfig)
        ensures
            r == (SamplerConfig {
                top_k: 20,
                top_p: 0x3F66_6666,
                min_p: 0,
                temp: 0x3F19_999A,
                seed: SEED_FROM_CLOCK,
            }),
    {
        SamplerConfig {
            top_k: 20,
            top_p: 0x3F66_6666,
            min_p: 0,
            temp: 0x3F19_999A,
            seed: SEED_FROM_CLOCK,
        }
    }
}

/// The seed of a sampler: the given one, or where that asks for the clock the clock, and a constant
/// where there is none.
pub open spec fn seed_of(seed: u64, clock: Option<u64>) -> u64 {
    if seed != SEED_FROM_CLOCK {
        seed
    } else {
        match clock {
            Some(t) => t,
            None => 0x9E37_79B9,
        }
    }
}

/// Different seeds start a sampler differently, whatever the clocks say; a clock starts it only
/// where the seed asks for that.
pub proof fn law_seed_is_obeyed(a: u64, b: u64, c: Option<u64>, d: Option<u64>, t: u64)
    requires
        a != 0xFFFF_FFFF,
        b != 0xFFFF_FFFF,
    ensures
        (seed_of(a, c) == seed_of(b, d)) == (a == b),
        seed_of(a, c) == a,
        seed_of(0xFFFF_FFFF, Some(t)) == t,
{
}

#[derive(Debug, Clone, Copy)]
pub struct Sampler {
    pub rng: Rng,
}

impl Sampler {
    /// A sampler for a configuration; `clock` seeds it where the configuration asks for that,
    /// and a constant does where there is no clock.
    pub fn new(cfg: &SamplerConfig, clock: Option<u64>) -> (r: Sampler)
        ensures
            r.rng.0 == seed_of(cfg.seed, clock),
    {
        let seed: u64 = if cfg.seed == SEED_FROM_CLOCK {
            match clock {
                Some(t) => t,
                None => 0x9E37_79B9,
            }
        } else {
            cfg.seed
        };
        Sampler { rng: Rng::new(seed) }
    }
}

// ---- comparing singles ------------------------------------------------------------------------

/// The place of a single on the number line; none if it is not a number. The two zeros share
/// theirs.
pub open spec fn place(b: u32) -> Option<int> {
    if b < 0x8000_0000 {
        if b <= 0x7F80_0000 {
            Some(b as int)
        } else {
            None
        }
    } else if b - 0x8000_0000 <= 0x7F80_0000 {
        Some(-(b - 0x8000_0000))
    } else {
        None
    }
}

/// `a < b` as singles.
pub open spec fn less(a: u32, b: u32) -> bool {
    match (place(a), place(b)) {
        (Some(x), Some(y)) => x < y,
        _ => false,
    }
}

/// `a <= b` as singles.
pub open spec fn at_most(a: u32, b: u32) -> bool {
    match (place(a), place(b)) {
        (Some(x), Some(y)) => x <= y,
        _ => false,
    }
}

fn place_of(b: u32) -> (r: Option<i64>)
    ensures
        match r {
            Some(x) => place(b) == Some(x as int),
            None => place(b) is None,
        },
{
    if b < 0x8000_0000 {
        if b <= 0x7F80_0000 {
            Some(b as i64)
        } else {
            None
        }
    } else if b - 0x8000_0000 <= 0x7F80_0000 {
        Some(-((b - 0x8000_0000) as i64))
    } else {
        None
    }
}

/// Whether `a < b` as singles.
pub fn single_less(a: u32, b: u32) -> (r: bool)
    ensures
        r == less(a, b),
{
    match (place_of(a), place_of(b)) {
        (Some(x), Some(y)) => x < y,
        _ => false,
    }
}

/// Whether `a <= b` as singles.
pub fn single_at_most(a: u32, b: u32) -> (r: bool)
    ensures
        r == at_most(a, b),
{
    match (place_of(a), place_of(b)) {
        (Some(x), Some(y)) => x <= y,
        _ => false,
    }
}

/// The pattern of negative infinity.
pub const NEG_INFINITY: u32 = 0xFF80_0000;

/// `r` is the first of the largest numbers among `v`; the front where there is none above
/// negative infinity.
pub open spec fn is_argmax(v: Seq<u32>, r: int) -> bool {
    if exists|i: int| 0 <= i < v.len() && less(NEG_INFINITY, #[trigger] v[i]) {
        &&& 0 <= r < v.len()
        &&& less(NEG_INFINITY, v[r])
        &&& forall|i: int| 0 <= i < v.len() ==> !less(v[r], #[trigger] v[i])
        &&& forall|i: int| 0 <= i < r ==> less(#[trigger] v[i], v[r]) || place(v[i]) is None
    } else {
        r == 0
    }
}

/// The place of the largest number; of equal ones the first.
pub open spec fn argmax_of(v: Seq<u32>) -> int {
    choose|r: int| is_argmax(v, r)
}

/// There is one such place.
pub proof fn lemma_argmax(v: Seq<u32>, r: int)
    requires
        is_argmax(v, r),
    ensures
        argmax_of(v) == r,
{
    let q = argmax_of(v);
    assert(is_argmax(v, q));
    if exists|i: int| 0 <= i < v.len() && less(NEG_INFINITY, #[trigger] v[i]) {
        assert(!less(v[r], v[q]));
        assert(!less(v[q], v[r]));
        if q < r {
            assert(less(v[q], v[r]) || place(v[q]) is None);
        } else if r < q {
            assert(less(v[r], v[q]) || place(v[r]) is None);
        }
    }
}

/// The place of the largest score; of equal ones the first.
pub fn argmax(v: &[u32]) -> (r: usize)
    ensures
        is_argmax(v@, r as int),
        r == argmax_of(v@),
        v@.len() > 0 ==> r < v@.len(),
{
    let n: usize = v.len();
    let mut best: usize = 0;
    let mut top: u32 = NEG_INFINITY;
    let mut i: usize = 0;
    while i < n
        invariant
            i <= n,
            n == v@.len(),
            i > 0 ==> best < i,
            i == 0 ==> best == 0,
            place(top) is Some,
            !less(top, NEG_INFINITY),
            top == NEG_INFINITY ==> best == 0,
            top != NEG_INFINITY ==> top == v@[best as int] && less(NEG_INFINITY, top) && best < i,
            forall|k: int| 0 <= k < i ==> !less(top, #[trigger] v@[k]),
            top != NEG_INFINITY ==> forall|k: int|
                0 <= k < best ==> less(#[trigger] v@[k], top) || place(v@[k]) is None,
        decreases n - i,
    {
        if single_less(top, v[i]) {
            top = v[i];
            best = i;
        }
        i += 1;
    }
    proof {
        if exists|k: int| 0 <= k < v@.len() && less(NEG_INFINITY, #[trigger] v@[k]) {
            let k = choose|k: int| 0 <= k < v@.len() && less(NEG_INFINITY, #[trigger] v@[k]);
            assert(!less(top, v@[k]));
        } else if top != NEG_INFINITY {
            assert(less(NEG_INFINITY, v@[best as int]));
        }
        lemma_argmax(v@, best as int);
    }
    best
}

impl SamplerConfig {
    /// The best candidate is taken, without chance.
    pub open spec fn greedy(&self) -> bool {
        at_most(self.temp, 0)
    }

    pub fn is_greedy(&self) -> (r: bool)
        ensures
            r == self.greedy(),
    {
        single_at_most(self.temp, 0)
    }
}

// ---- choosing among candidates --------------------------------------------------------------

/// How many candidates a configuration keeps of `n`.
pub open spec fn top_count(top_k: i32, n: int) -> int {
    if top_k > 0 && top_k < n {
        top_k as int
    } else {
        n
    }
}

/// `a` ranks before `b`: a larger score, or the same rank and an earlier place. Whatever is not a
/// number ranks last.
pub open spec fn ranks_before(v: Seq<u32>, a: int, b: int) -> bool {
    let x = place(v[a]);
    let y = place(v[b]);
    match (x, y) {
        (Some(p), Some(q)) => p > q || p == q && a < b,
        (Some(_), None) => true,
        (None, Some(_)) => false,
        (None, None) => a < b,
    }
}

fn ranks(v: &[u32], a: usize, b: usize) -> (r: bool)
    requires
        a < v@.len(),
        b < v@.len(),
    ensures
        r == ranks_before(v@, a as int, b as int),
{
    match (place_of(v[a]), place_of(v[b])) {
        (Some(p), Some(q)) => p > q || p == q && a < b,
        (Some(_), None) => true,
        (None, Some(_)) => false,
        (None, None) => a < b,
    }
}

/// `order` lists the `k` best of `v`, best first.
pub open spec fn best_first(v: Seq<u32>, order: Seq<usize>, k: int) -> bool {
    &&& order.len() == k
    &&& forall|i: int| 0 <= i < k ==> #[trigger] order[i] < v.len()
    &&& forall|i: int, j: int|
        0 <= i < j < k ==> ranks_before(v, #[trigger] order[i] as int, #[trigger] order[j] as int)
    &&& forall|x: int| 0 <= x < v.len() ==> #[trigger] listed(order, x) || outranked(v, order, x)
}

/// `x` is on the list.
pub open spec fn listed(order: Seq<usize>, x: int) -> bool {
    exists|i: int| 0 <= i < order.len() && #[trigger] order[i] == x
}

/// Everything on the list ranks before `x`.
pub open spec fn outranked(v: Seq<u32>, order: Seq<usize>, x: int) -> bool {
    forall|i: int| 0 <= i < order.len() ==> ranks_before(v, #[trigger] order[i] as int, x)
}

/// Lists the `k` best scores, best first.
pub fn top_candidates(v: &[u32], top_k: i32) -> (r: Vec<usize>)
    ensures
        best_first(v@, r@, top_count(top_k, v@.len() as int)),
{
    let n: usize = v.len();
    let k: usize = if top_k > 0 && (top_k as u64) < n as u64 {
        top_k as usize
    } else {
        n
    };
    let mut order: Vec<usize> = Vec::new();
    let mut x: usize = 0;
    while x < n
        invariant
            x <= n,
            n == v@.len(),
            k <= n,
            best_first(v@.take(x as int), order@, if x < k {
                x as int
            } else {
                k as int
            }),
        decreases n - x,
    {
        insert_ranked(v, &mut order, x, k);
        x += 1;
    }
    assert(v@.take(x as int) =~= v@);
    order
}

/// Puts place `x` into the list of the best so far.
fn insert_ranked(v: &[u32], order: &mut Vec<usize>, x: usize, k: usize)
    requires
        x < v@.len(),
        best_first(v@.take(x as int), old(order)@, if x < k {
            x as int
        } else {
            k as int
        }),
    ensures
        best_first(v@.take(x + 1), final(order)@, if x + 1 < k {
            x + 1
        } else {
            k as int
        }),
{
    let ghost s0 = v@.take(x as int);
    let ghost s1 = v@.take(x + 1);
    let len: usize = order.len();
    let ghost before = order@;
    let mut p: usize = len;
    assert forall|i: int| 0 <= i < len implies #[trigger] before[i] < x by {
        assert(before[i] < s0.len());
    }
    while p > 0 && ranks(v, x, order[p - 1])
        invariant
            p <= len,
            len == order@.len(),
            order@ == before,
            x < v@.len(),
            s1 == v@.take(x + 1),
            forall|i: int| 0 <= i < len ==> #[trigger] before[i] < x,
            forall|i: int| p <= i < len ==> ranks_before(s1, x as int, #[trigger] before[i] as int),
        decreases p,
    {
        assert(before[p - 1] < x);
        p -= 1;
    }
    proof {
        assert forall|i: int, j: int| 0 <= i < j < len implies ranks_before(
            s1,
            #[trigger] before[i] as int,
            #[trigger] before[j] as int,
        ) by {
            assert(ranks_before(s0, before[i] as int, before[j] as int));
        }
        if p > 0 {
            assert(before[p - 1] < x);
            assert(ranks_before(s1, before[p - 1] as int, x as int));
        }
        assert forall|i: int| 0 <= i < p implies ranks_before(
            s1,
            #[trigger] before[i] as int,
            x as int,
        ) by {
            assert(before[i] < x);
            if i < p - 1 {
                assert(ranks_before(s1, before[i] as int, before[p - 1] as int));
            }
        }
    }
    order.insert(p, x);
    let ghost mid = before.insert(p as int, x);
    assert(order@ == mid);
    if order.len() > k {
        order.truncate(k);
    }
    proof {
        let kk = order@.len() as int;
        assert forall|y: int| 0 <= y < x implies #[trigger] listed(before, y) || outranked(
            s1,
            before,
            y,
        ) by {
            if !listed(before, y) {
                assert(outranked(s0, before, y));
                assert forall|i: int| 0 <= i < before.len() implies ranks_before(
                    s1,
                    #[trigger] before[i] as int,
                    y,
                ) by {
                    assert(ranks_before(s0, before[i] as int, y));
                }
            }
        }
        if len < k {
            assert(len == x);
            lemma_all_listed(before, x as int);
        }
        assert forall|i: int| 0 <= i < kk implies #[trigger] order@[i] == mid[i] && order@[i]
            < s1.len() by {
            if i < p {
                assert(mid[i] == before[i]);
            } else if i > p {
                assert(mid[i] == before[i - 1]);
            }
        }
        assert forall|i: int, j: int| 0 <= i < j < mid.len() implies ranks_before(
            s1,
            #[trigger] mid[i] as int,
            #[trigger] mid[j] as int,
        ) by {
            if j < p {
                assert(mid[i] == before[i] && mid[j] == before[j]);
            } else if j == p {
                assert(mid[i] == before[i]);
            } else if i == p {
                assert(mid[j] == before[j - 1]);
            } else if i < p {
                assert(mid[i] == before[i] && mid[j] == before[j - 1]);
            } else {
                assert(mid[i] == before[i - 1] && mid[j] == before[j - 1]);
            }
        }
        assert forall|y: int| 0 <= y < s1.len() implies #[trigger] listed(order@, y) || outranked(
            s1,
            order@,
            y,
        ) by {
            if !listed(order@, y) {
                lemma_outranked(s1, before, mid, order@, x as int, p as int, k as int, y);
            }
        }
    }
}

/// A list of `n` different places below `n` lists them all.
proof fn lemma_all_listed(order: Seq<usize>, n: int)
    requires
        order.len() == n,
        forall|i: int| 0 <= i < n ==> #[trigger] order[i] < n,
        forall|i: int, j: int| 0 <= i < j < n ==> #[trigger] order[i] != #[trigger] order[j],
    ensures
        forall|z: int| 0 <= z < n ==> #[trigger] listed(order, z),
{
    let ints = order.map_values(|x: usize| x as int);
    assert(ints.no_duplicates());
    let set = ints.to_set();
    let full = vstd::set_lib::set_int_range(0, n);
    vstd::set_lib::lemma_int_range(0, n);
    ints.unique_seq_to_set();
    assert(set.subset_of(full)) by {
        assert forall|z: int| set.contains(z) implies full.contains(z) by {
            let i = choose|i: int| 0 <= i < ints.len() && ints[i] == z;
            assert(order[i] < n);
        }
    }
    vstd::set_lib::lemma_subset_equality(set, full);
    assert forall|z: int| 0 <= z < n implies #[trigger] listed(order, z) by {
        assert(full.contains(z));
        assert(set.contains(z));
        let i = choose|i: int| 0 <= i < ints.len() && ints[i] == z;
        assert(order[i] == z);
    }
}

/// What falls off the list, or was never on it, ranks behind the list.
proof fn lemma_outranked(
    s: Seq<u32>,
    before: Seq<usize>,
    mid: Seq<usize>,
    after: Seq<usize>,
    x: int,
    p: int,
    k: int,
    y: int,
)
    requires
        0 <= y < s.len(),
        0 <= x < s.len(),
        x == s.len() - 1,
        0 <= p <= before.len(),
        mid == before.insert(p, x as usize),
        x <= usize::MAX,
        after.len() == if mid.len() > k {
            k
        } else {
            mid.len() as int
        },
        k >= 0,
        forall|i: int| 0 <= i < after.len() ==> #[trigger] after[i] == mid[i],
        forall|i: int| 0 <= i < before.len() ==> #[trigger] before[i] < x,
        forall|i: int, j: int|
            0 <= i < j < mid.len() ==> ranks_before(
                s,
                #[trigger] mid[i] as int,
                #[trigger] mid[j] as int,
            ),
        y < x ==> listed(before, y) || outranked(s, before, y),
        before.len() < k ==> forall|z: int| 0 <= z < x ==> #[trigger] listed(before, z),
        before.len() <= k,
        !listed(after, y),
    ensures
        outranked(s, after, y),
{
    assert(mid[p] == x);
    assert forall|i: int| 0 <= i < after.len() implies ranks_before(
        s,
        #[trigger] after[i] as int,
        y,
    ) by {
        assert(after[i] == mid[i]);
        if y == x {
            if p < after.len() {
                assert(after[p] == y);
            } else {
                assert(ranks_before(s, mid[i] as int, mid[p] as int));
            }
        } else if listed(before, y) {
            let m = choose|m: int| 0 <= m < before.len() && #[trigger] before[m] == y;
            let q = if m < p {
                m
            } else {
                m + 1
            };
            assert(mid[q] == y);
            if q < after.len() {
                assert(after[q] == y);
            } else {
                assert(ranks_before(s, mid[i] as int, mid[q] as int));
            }
        } else {
            assert(before.len() == k);
            if i < p {
                assert(mid[i] == before[i]);
                assert(ranks_before(s, before[i] as int, y));
            } else if i > p {
                assert(mid[i] == before[i - 1]);
                assert(ranks_before(s, before[i - 1] as int, y));
            } else {
                // the newcomer stayed, so something ranks behind it
                assert(p < before.len());
                assert(mid[p + 1] == before[p]);
                assert(ranks_before(s, mid[p] as int, mid[p + 1] as int));
                assert(ranks_before(s, before[p] as int, y));
            }
        }
    }
}

/// One, as a single.
pub const ONE: u32 = 0x3F80_0000;

impl SamplerConfig {
    /// Candidates far below the best are dropped: the share is between zero and one.
    pub open spec fn cuts_low(&self) -> bool {
        less(0, self.min_p) && less(self.min_p, ONE)
    }

    pub fn drops_unlikely(&self) -> (r: bool)
        ensures
            r == self.cuts_low(),
    {
        single_less(0, self.min_p) && single_less(self.min_p, ONE)
    }
}

/// The places from `i` on whose value is at least the cutoff.
pub open spec fn kept_from(probs: Seq<u32>, cutoff: u32, i: int) -> Seq<usize>
    decreases probs.len() - i,
{
    if i < 0 || i >= probs.len() {
        Seq::empty()
    } else if at_most(cutoff, probs[i]) {
        seq![i as usize] + kept_from(probs, cutoff, i + 1)
    } else {
        kept_from(probs, cutoff, i + 1)
    }
}

/// The places whose value is at least the cutoff, in order.
pub fn keep_at_least(probs: &[u32], cutoff: u32) -> (r: Vec<usize>)
    ensures
        r@ == kept_from(probs@, cutoff, 0),
{
    let n: usize = probs.len();
    let mut out: Vec<usize> = Vec::new();
    let mut i: usize = 0;
    let ghost all = kept_from(probs@, cutoff, 0);
    assert(out@ + all =~= all);
    while i < n
        invariant
            i <= n,
            n == probs@.len(),
            out@ + kept_from(probs@, cutoff, i as int) == all,
        decreases n - i,
    {
        let ghost before = out@;
        let ghost rest = kept_from(probs@, cutoff, i + 1);
        if single_at_most(cutoff, probs[i]) {
            out.push(i);
            assert(before + (seq![i] + rest) =~= out@ + rest);
        }
        i += 1;
    }
    assert(out@ + Seq::<usize>::empty() =~= out@);
    out
}

/// How many candidates make up the nucleus, given the running sums of their probabilities: up to
/// the first sum that reaches the share; all where the share is one or more, or is not reached.
pub open spec fn nucleus(sums: Seq<u32>, top_p: u32, i: int) -> int
    decreases sums.len() - i,
{
    if !less(top_p, ONE) || i < 0 || i >= sums.len() {
        sums.len() as int
    } else if at_most(top_p, sums[i]) {
        i + 1
    } else {
        nucleus(sums, top_p, i + 1)
    }
}

/// How many candidates make up the nucleus.
pub fn nucleus_len(sums: &[u32], top_p: u32) -> (r: usize)
    ensures
        r == nucleus(sums@, top_p, 0),
{
    let n: usize = sums.len();
    if !single_less(top_p, ONE) {
        return n;
    }
    let mut i: usize = 0;
    while i < n
        invariant
            i <= n,
            n == sums@.len(),
            less(top_p, ONE),
            nucleus(sums@, top_p, 0) == nucleus(sums@, top_p, i as int),
        decreases n - i,
    {
        if single_at_most(top_p, sums[i]) {
            return i + 1;
        }
        i += 1;
    }
    n
}

} // verus!
