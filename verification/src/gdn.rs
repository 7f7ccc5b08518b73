//! The recurrence of the gated delta net, head by head. A head's state is a square matrix, row
//! by row. How much of the state stays is given for each head.

use vstd::prelude::*;

use crate::binary;
use crate::dots;
use crate::exact;
use crate::single;

verus! {

/// A state after its decay.
pub open spec fn decayed(m: Seq<u32>, keep: u32) -> Seq<u32> {
    Seq::new(m.len(), |p: int| single::product_of(m[p], keep))
}

/// The product of a state's row with a vector.
pub open spec fn row_dot(m: Seq<u32>, j: int, x: Seq<u32>, s: int) -> u32 {
    dots::dense_dot(dots::column(m, j, s), x, s)
}

/// What a row is corrected by: the value less what the state predicts, weighted.
pub open spec fn delta(m: Seq<u32>, j: int, k: Seq<u32>, v: u32, beta: u32, s: int) -> u32 {
    single::product_of(single::difference_of(v, row_dot(m, j, k, s)), beta)
}

/// A state with every row corrected along the key.
pub open spec fn corrected(m: Seq<u32>, k: Seq<u32>, v: Seq<u32>, beta: u32, s: int) -> Seq<u32> {
    Seq::new(
        m.len(),
        |p: int|
            single::sum_of(
                m[p],
                single::product_of(k[p % s], delta(m, p / s, k, v[p / s], beta, s)),
            ),
    )
}

/// A state after a token.
pub open spec fn next_state(
    m: Seq<u32>,
    keep: u32,
    k: Seq<u32>,
    v: Seq<u32>,
    beta: u32,
    s: int,
) -> Seq<u32> {
    corrected(decayed(m, keep), k, v, beta, s)
}

/// What a state answers to a query.
pub open spec fn answer(m: Seq<u32>, q: Seq<u32>, scale: u32, s: int) -> Seq<u32> {
    Seq::new(s as nat, |j: int| single::product_of(row_dot(m, j, q, s), scale))
}

fn decay(m: &Vec<u32>, keep: u32) -> (r: Vec<u32>)
    ensures
        r@ == decayed(m@, keep),
{
    let mut out: Vec<u32> = Vec::new();
    let mut p: usize = 0;
    while p < m.len()
        invariant
            p <= m@.len(),
            out@ == decayed(m@, keep).take(p as int),
        decreases m@.len() - p,
    {
        out.push(single::product(m[p], keep));
        p += 1;
        assert(out@ =~= decayed(m@, keep).take(p as int));
    }
    assert(out@ =~= decayed(m@, keep));
    out
}

fn row(m: &Vec<u32>, j: usize, s: usize) -> (r: Vec<u32>)
    requires
        j < s,
        m@.len() == s * s,
    ensures
        r@ == dots::column(m@, j as int, s as int),
        r@.len() == s,
{
    let size: usize = m.len();
    proof {
        dots::lemma_row_end(j as int, s as int, s as int);
        let (a, b) = (j as int, s as int);
        assert((a + 1) * b == a * b + b) by (nonlinear_arith);
    }
    let at: usize = j * s;
    vstd::slice::slice_to_vec(vstd::slice::slice_subrange(m.as_slice(), at, at + s))
}

fn dot_row(m: &Vec<u32>, j: usize, x: &Vec<u32>, s: usize) -> (r: u32)
    requires
        j < s,
        m@.len() == s * s,
        x@.len() == s,
    ensures
        r == row_dot(m@, j as int, x@, s as int),
{
    let w: Vec<u32> = row(m, j, s);
    dots::dot(w.as_slice(), x)
}

fn correct(m: &Vec<u32>, k: &Vec<u32>, v: &Vec<u32>, beta: u32, s: usize) -> (r: Vec<u32>)
    requires
        s > 0,
        m@.len() == s * s,
        k@.len() == s,
        v@.len() == s,
    ensures
        r@ == corrected(m@, k@, v@, beta, s as int),
{
    let size: usize = m.len();
    let mut out: Vec<u32> = Vec::new();
    let mut j: usize = 0;
    assert(0 * s == 0) by (nonlinear_arith);
    while j < s
        invariant
            j <= s,
            s > 0,
            size == m@.len(),
            size == s * s,
            k@.len() == s,
            v@.len() == s,
            out@.len() == j * s,
            forall|p: int|
                0 <= p < out@.len() ==> #[trigger] out@[p] == corrected(
                    m@,
                    k@,
                    v@,
                    beta,
                    s as int,
                )[p],
        decreases s - j,
    {
        proof {
            dots::lemma_row_end(j as int, s as int, s as int);
            let (a, b) = (j as int, s as int);
            assert((a + 1) * b == a * b + b) by (nonlinear_arith);
        }
        let d: u32 = single::product(
            single::difference(v[j], dot_row(m, j, k, s)),
            beta,
        );
        let at: usize = j * s;
        let mut i: usize = 0;
        while i < s
            invariant
                i <= s,
                j < s,
                size == m@.len(),
                at == j * s,
                at + s <= size,
                k@.len() == s,
                v@.len() == s,
                d == delta(m@, j as int, k@, v@[j as int], beta, s as int),
                out@.len() == at + i,
                forall|p: int|
                    0 <= p < out@.len() ==> #[trigger] out@[p] == corrected(
                        m@,
                        k@,
                        v@,
                        beta,
                        s as int,
                    )[p],
            decreases s - i,
        {
            let x: u32 = single::sum(m[at + i], single::product(k[i], d));
            proof {
                let (a, b, c) = (j as int, s as int, i as int);
                vstd::arithmetic::div_mod::lemma_fundamental_div_mod_converse(at + i, b, a, c);
            }
            out.push(x);
            i += 1;
        }
        j += 1;
    }
    assert(out@ =~= corrected(m@, k@, v@, beta, s as int));
    out
}

fn respond(m: &Vec<u32>, q: &Vec<u32>, scale: u32, s: usize) -> (r: Vec<u32>)
    requires
        m@.len() == s * s,
        q@.len() == s,
    ensures
        r@ == answer(m@, q@, scale, s as int),
{
    let mut out: Vec<u32> = Vec::new();
    let mut j: usize = 0;
    while j < s
        invariant
            j <= s,
            m@.len() == s * s,
            q@.len() == s,
            out@ == answer(m@, q@, scale, s as int).take(j as int),
        decreases s - j,
    {
        out.push(single::product(dot_row(m, j, q, s), scale));
        j += 1;
        assert(out@ =~= answer(m@, q@, scale, s as int).take(j as int));
    }
    assert(out@ =~= answer(m@, q@, scale, s as int));
    out
}

/// Takes a token into a head's state and answers its query: the state decays, is corrected
/// towards the value, and is asked.
pub fn gdn_head(
    state: &mut Vec<u32>,
    keep: u32,
    q: &Vec<u32>,
    k: &Vec<u32>,
    v: &Vec<u32>,
    beta: u32,
    scale: u32,
) -> (r: Vec<u32>)
    requires
        q@.len() > 0,
        k@.len() == q@.len(),
        v@.len() == q@.len(),
        old(state)@.len() == q@.len() * q@.len(),
    ensures
        final(state)@ == next_state(old(state)@, keep, k@, v@, beta, q@.len() as int),
        r@ == answer(final(state)@, q@, scale, q@.len() as int),
{
    let s: usize = q.len();
    let m: Vec<u32> = decay(state, keep);
    *state = correct(&m, k, v, beta, s);
    respond(state, q, scale, s)
}

/// The head of keys and queries that value head `h` shares: they are dealt out in turn.
pub open spec fn key_head_of(h: int, n_key: int) -> int {
    h % n_key
}

/// The heads of keys are dealt out in turn: each has its own value head first, and then one more
/// in every round.
pub proof fn law_key_heads_take_turns(h: int, n_key: int)
    requires
        0 <= h,
        0 < n_key,
    ensures
        h < n_key ==> key_head_of(h, n_key) == h,
        key_head_of(h + n_key, n_key) == key_head_of(h, n_key),
        0 <= key_head_of(h, n_key) < n_key,
{
    vstd::arithmetic::div_mod::lemma_mod_add_multiples_vanish(h, n_key);
    vstd::arithmetic::div_mod::lemma_mod_bound(h, n_key);
    if h < n_key {
        vstd::arithmetic::div_mod::lemma_small_mod(h as nat, n_key as nat);
    }
}

/// The head of keys and queries that value head `h` shares.
pub fn key_head(h: usize, n_key: usize) -> (r: usize)
    requires
        n_key > 0,
    ensures
        r == key_head_of(h as int, n_key as int),
        r < n_key,
{
    h % n_key
}

// ---- what a head learns -----------------------------------------------------------------------

/// Row `j` of a square of numbers.
pub open spec fn row_at(m: Seq<int>, j: int, s: int) -> Seq<int> {
    Seq::new(s as nat, |i: int| m[j * s + i])
}

/// A token's numbers, read off singles: a state over two to the power `a`, what stays of it over
/// two to the power `b`, a key over two to the power `c`, values over the three together, and a
/// weight over two to the power `d`.
pub struct Token {
    pub m: Seq<int>,
    pub keep: int,
    pub k: Seq<int>,
    pub v: Seq<int>,
    pub beta: int,
    pub a: nat,
    pub b: nat,
    pub c: nat,
    pub d: nat,
}

impl Token {
    /// What the decayed state predicts for a vector, in row `j`.
    pub open spec fn predicts(self, j: int, x: Seq<int>) -> int {
        self.keep * exact::dot(row_at(self.m, j, x.len() as int), x, x.len() as int)
    }

    /// How far row `j` is from its value.
    pub open spec fn misses(self, j: int) -> int {
        self.v[j] - self.predicts(j, self.k)
    }

    /// The state after the token stands over two to this power.
    pub open spec fn scale(self) -> nat {
        self.a + self.b + 2 * self.c + self.d
    }

    /// A decayed row.
    pub open spec fn decayed_row(self, j: int) -> Seq<int> {
        let s = self.k.len() as int;
        Seq::new(s as nat, |i: int| self.keep * self.m[j * s + i])
    }

    /// No step of the arithmetic leaves the bits of a single.
    pub open spec fn fits(self) -> bool {
        let s = self.k.len() as int;
        let z = binary::two(2 * self.c + self.d);
        &&& self.scale() <= 149
        &&& forall|p: int|
            0 <= p < self.m.len() ==> {
                let x = self.keep * #[trigger] self.m[p];
                let y = self.k[p % s] * (self.misses(p / s) * self.beta);
                within3(x, y, x * z + y)
            }
        &&& forall|j: int|
            0 <= j < s ==> {
                &&& exact::dot_within(self.decayed_row(j), self.k, s)
                &&& within3(#[trigger] self.misses(j), self.misses(j) * self.beta, 0)
            }
    }
}

pub open spec fn within3(x: int, y: int, z: int) -> bool {
    exact::within(x) && exact::within(y) && exact::within(z)
}

/// The singles of a token are its numbers.
pub open spec fn reads(
    t: Token,
    m: Seq<u32>,
    keep: u32,
    k: Seq<u32>,
    v: Seq<u32>,
    beta: u32,
) -> bool {
    &&& k.len() > 0
    &&& v.len() == k.len()
    &&& m.len() == k.len() * k.len()
    &&& exact::all_fixed(m, t.m, t.a)
    &&& exact::fixed(keep, t.keep, t.b)
    &&& exact::all_fixed(k, t.k, t.c)
    &&& exact::all_fixed(v, t.v, t.a + t.b + t.c)
    &&& exact::fixed(beta, t.beta, t.d)
}

/// What row `j` of a state is corrected by is exact.
proof fn lemma_delta(
    t: Token,
    m: Seq<u32>,
    keep: u32,
    k: Seq<u32>,
    v: Seq<u32>,
    beta: u32,
    j: int,
)
    requires
        reads(t, m, keep, k, v, beta),
        t.fits(),
        0 <= j < k.len(),
    ensures
        exact::fixed(
            delta(decayed(m, keep), j, k, v[j], beta, k.len() as int),
            t.misses(j) * t.beta,
            t.a + t.b + t.c + t.d,
        ),
        exact::dot(t.decayed_row(j), t.k, k.len() as int) == t.predicts(j, t.k),
{
    let s = k.len() as int;
    let dm = decayed(m, keep);
    let row = dots::column(dm, j, s);
    let xs = t.decayed_row(j);
    dots::lemma_row_end(j, s, s);
    assert((j + 1) * s == j * s + s) by (nonlinear_arith);
    assert(within3(t.misses(j), t.misses(j) * t.beta, 0));
    assert(row.len() == s);
    assert forall|i: int| 0 <= i < s implies exact::fixed(#[trigger] row[i], xs[i], t.a + t.b) by {
        let p = j * s + i;
        vstd::arithmetic::div_mod::lemma_fundamental_div_mod_converse(p, s, j, i);
        assert(exact::fixed(m[p], t.m[p], t.a));
        assert(exact::within(t.keep * t.m[p]));
        assert(t.keep * t.m[p] == t.m[p] * t.keep) by (nonlinear_arith);
        exact::law_product_is_exact(m[p], keep, t.m[p], t.keep, t.a, t.b);
        assert(row[i] == dm[p]);
    }
    exact::law_dot_is_exact(row, k, xs, t.k, t.a + t.b, t.c, s);
    let mine = row_at(t.m, j, s);
    exact::law_dot_is_linear(xs, mine, mine, t.keep, 0, t.k, s);
    let p = row_dot(dm, j, k, s);
    exact::law_difference_is_exact(v[j], p, t.v[j], t.predicts(j, t.k), t.a + t.b + t.c);
    exact::law_product_is_exact(
        single::difference_of(v[j], p),
        beta,
        t.misses(j),
        t.beta,
        t.a + t.b + t.c,
        t.d,
    );
}

/// A token teaches a head its value by the delta rule, wherever the arithmetic is exact: what the
/// state then predicts for any vector is what the decayed state predicted, and, as far as the
/// vector agrees with the key, the weight times what the decayed prediction for the key missed.
///
/// The numbers of the new state are returned; they stand over two to the power `t.scale()`.
pub proof fn law_head_learns(
    t: Token,
    m: Seq<u32>,
    keep: u32,
    k: Seq<u32>,
    v: Seq<u32>,
    beta: u32,
) -> (n: Seq<int>)
    requires
        reads(t, m, keep, k, v, beta),
        t.fits(),
    ensures
        exact::all_fixed(next_state(m, keep, k, v, beta, k.len() as int), n, t.scale()),
        forall|j: int, x: Seq<int>|
            0 <= j < k.len() && x.len() == k.len() ==> #[trigger] exact::dot(
                row_at(n, j, k.len() as int),
                x,
                k.len() as int,
            ) == binary::two(2 * t.c + t.d) * t.predicts(j, x) + exact::dot(
                t.k,
                x,
                k.len() as int,
            ) * (t.beta * (t.v[j] - t.predicts(j, t.k))),
{
    let s = k.len() as int;
    let z = binary::two(2 * t.c + t.d);
    let dm = decayed(m, keep);
    let next = next_state(m, keep, k, v, beta, s);
    let n = Seq::new(
        m.len(),
        |p: int| (t.keep * t.m[p]) * z + t.k[p % s] * (t.misses(p / s) * t.beta),
    );
    assert forall|p: int| 0 <= p < next.len() implies exact::fixed(
        #[trigger] next[p],
        n[p],
        t.scale(),
    ) by {
        let (j, i) = (p / s, p % s);
        vstd::arithmetic::div_mod::lemma_fundamental_div_mod(p, s);
        assert(0 <= i < s && 0 <= j < s) by (nonlinear_arith)
            requires
                0 <= p < s * s,
                s > 0,
                p == s * j + i,
                i == p % s,
        ;
        lemma_delta(t, m, keep, k, v, beta, j);
        let e = t.misses(j) * t.beta;
        let x = t.keep * t.m[p];
        assert(within3(x, t.k[i] * e, x * z + t.k[i] * e));
        assert(exact::fixed(m[p], t.m[p], t.a));
        assert(t.keep * t.m[p] == t.m[p] * t.keep) by (nonlinear_arith);
        exact::law_product_is_exact(m[p], keep, t.m[p], t.keep, t.a, t.b);
        exact::law_finer(dm[p], x, t.a + t.b, 2 * t.c + t.d);
        assert(exact::fixed(k[i], t.k[i], t.c));
        let dl = delta(dm, j, k, v[j], beta, s);
        exact::law_product_is_exact(k[i], dl, t.k[i], e, t.c, t.a + t.b + t.c + t.d);
        exact::law_sum_is_exact(
            dm[p],
            single::product_of(k[i], dl),
            x * z,
            t.k[i] * e,
            t.scale(),
        );
    }
    assert forall|j: int, x: Seq<int>| 0 <= j < s && x.len() == s implies #[trigger] exact::dot(
        row_at(n, j, s),
        x,
        s,
    ) == z * t.predicts(j, x) + exact::dot(t.k, x, s) * (t.beta * (t.v[j] - t.predicts(
        j,
        t.k,
    ))) by {
        let row = row_at(n, j, s);
        let xs = t.decayed_row(j);
        let mine = row_at(t.m, j, s);
        let e = t.misses(j) * t.beta;
        dots::lemma_row_end(j, s, s);
        assert forall|i: int| 0 <= i < s implies #[trigger] row[i] == z * xs[i] + e * t.k[i] by {
            let p = j * s + i;
            vstd::arithmetic::div_mod::lemma_fundamental_div_mod_converse(p, s, j, i);
            let (f, g) = (t.keep * t.m[p], t.k[i]);
            assert(f * z + g * e == z * f + e * g) by (nonlinear_arith);
        }
        exact::law_dot_is_linear(row, xs, t.k, z as int, e, x, s);
        exact::law_dot_is_linear(xs, mine, mine, t.keep, 0, x, s);
        let (w, b, q) = (t.misses(j), t.beta, exact::dot(t.k, x, s));
        assert((w * b) * q == q * (b * w)) by (nonlinear_arith);
    }
    n
}

/// With a key of length one, a token moves what the state predicts for the key from the decayed
/// prediction towards the value, by its weight: the new prediction is their mean, with the weights
/// `1 - beta` and `beta`. What the state predicts for a vector at right angles to the key only
/// decays.
pub proof fn law_head_moves_towards_the_value(
    t: Token,
    m: Seq<u32>,
    keep: u32,
    k: Seq<u32>,
    v: Seq<u32>,
    beta: u32,
) -> (n: Seq<int>)
    requires
        reads(t, m, keep, k, v, beta),
        t.fits(),
        exact::dot(t.k, t.k, k.len() as int) == binary::two(2 * t.c),
    ensures
        exact::all_fixed(next_state(m, keep, k, v, beta, k.len() as int), n, t.scale()),
        forall|j: int|
            0 <= j < k.len() ==> #[trigger] exact::dot(
                row_at(n, j, k.len() as int),
                t.k,
                k.len() as int,
            ) == binary::two(2 * t.c) * ((binary::two(t.d) - t.beta) * t.predicts(j, t.k) + t.beta
                * t.v[j]),
        forall|j: int, x: Seq<int>|
            0 <= j < k.len() && x.len() == k.len() && exact::dot(t.k, x, k.len() as int) == 0
                ==> #[trigger] exact::dot(row_at(n, j, k.len() as int), x, k.len() as int)
                == binary::two(2 * t.c + t.d) * t.predicts(j, x),
{
    let s = k.len() as int;
    let n = law_head_learns(t, m, keep, k, v, beta);
    binary::lemma_two_adds(2 * t.c, t.d);
    let (u, w) = (binary::two(2 * t.c) as int, binary::two(t.d) as int);
    assert forall|j: int| 0 <= j < s implies #[trigger] exact::dot(row_at(n, j, s), t.k, s) == u * (
    (w - t.beta) * t.predicts(j, t.k) + t.beta * t.v[j]) by {
        let (p, b, x) = (t.predicts(j, t.k), t.beta, t.v[j]);
        assert((u * w) * p + u * (b * (x - p)) == u * ((w - b) * p + b * x)) by (nonlinear_arith);
    }
    assert forall|j: int, x: Seq<int>|
        0 <= j < s && x.len() == s && exact::dot(t.k, x, s) == 0 implies #[trigger] exact::dot(
        row_at(n, j, s),
        x,
        s,
    ) == binary::two(2 * t.c + t.d) * t.predicts(j, x) by {
        let g = t.beta * (t.v[j] - t.predicts(j, t.k));
        assert(0 * g == 0);
    }
    n
}

/// What a state answers to a query is what it predicts for it, times the scale, wherever the
/// arithmetic is exact.
pub proof fn law_answer_is_prediction(
    m: Seq<u32>,
    q: Seq<u32>,
    scale: u32,
    mi: Seq<int>,
    qi: Seq<int>,
    si: int,
    a: nat,
    b: nat,
    c: nat,
    j: int,
)
    requires
        0 <= j < q.len(),
        m.len() == q.len() * q.len(),
        exact::all_fixed(m, mi, a),
        exact::all_fixed(q, qi, b),
        exact::fixed(scale, si, c),
        a + b + c <= 149,
        exact::dot_within(row_at(mi, j, q.len() as int), qi, q.len() as int),
        exact::within(exact::dot(row_at(mi, j, q.len() as int), qi, q.len() as int) * si),
    ensures
        answer(m, q, scale, q.len() as int).len() == q.len(),
        exact::fixed(
            answer(m, q, scale, q.len() as int)[j],
            exact::dot(row_at(mi, j, q.len() as int), qi, q.len() as int) * si,
            a + b + c,
        ),
{
    let s = q.len() as int;
    let row = dots::column(m, j, s);
    let xs = row_at(mi, j, s);
    dots::lemma_row_end(j, s, s);
    assert((j + 1) * s == j * s + s) by (nonlinear_arith);
    assert forall|i: int| 0 <= i < s implies exact::fixed(#[trigger] row[i], xs[i], a) by {
        assert(exact::fixed(m[j * s + i], mi[j * s + i], a));
    }
    exact::law_dot_is_exact(row, q, xs, qi, a, b, s);
    exact::law_product_is_exact(row_dot(m, j, q, s), scale, exact::dot(xs, qi, s), si, a + b, c);
}

/// The shapes of a step over all heads.
pub open spec fn shaped(
    q: Seq<u32>,
    k: Seq<u32>,
    v: Seq<u32>,
    keep: Seq<u32>,
    beta: Seq<u32>,
    state: Seq<Vec<u32>>,
    n_key: int,
    s: int,
) -> bool {
    let n = state.len() as int;
    &&& s > 0
    &&& n_key > 0
    &&& q.len() == n_key * s
    &&& k.len() == n_key * s
    &&& v.len() == n * s
    &&& keep.len() == n
    &&& beta.len() == n
    &&& forall|h: int| 0 <= h < n ==> (#[trigger] state[h])@.len() == s * s
}

/// The answers of the first `n` heads, one behind the other.
pub open spec fn answers(
    states: Seq<Vec<u32>>,
    q: Seq<u32>,
    scale: u32,
    n_key: int,
    s: int,
    n: int,
) -> Seq<u32>
    decreases n,
{
    if n <= 0 {
        Seq::empty()
    } else {
        answers(states, q, scale, n_key, s, n - 1) + answer(
            states[n - 1]@,
            dots::column(q, key_head_of(n - 1, n_key), s),
            scale,
            s,
        )
    }
}

fn part(x: &[u32], h: usize, s: usize, Ghost(n): Ghost<int>) -> (r: Vec<u32>)
    requires
        h < n,
        n * s <= x@.len(),
    ensures
        r@ == dots::column(x@, h as int, s as int),
        r@.len() == s,
{
    let size: usize = x.len();
    proof {
        dots::lemma_row_end(h as int, n, s as int);
        let (a, b) = (h as int, s as int);
        assert((a + 1) * b == a * b + b) by (nonlinear_arith);
    }
    let at: usize = h * s;
    vstd::slice::slice_to_vec(vstd::slice::slice_subrange(x, at, at + s))
}

/// Takes a token into the states of all heads, and answers their queries.
pub fn gdn_step(
    q: &[u32],
    k: &[u32],
    v: &[u32],
    keep: &[u32],
    beta: &[u32],
    state: &mut Vec<Vec<u32>>,
    n_key: usize,
    s: usize,
    scale: u32,
) -> (r: Vec<u32>)
    requires
        shaped(q@, k@, v@, keep@, beta@, old(state)@, n_key as int, s as int),
    ensures
        final(state)@.len() == old(state)@.len(),
        forall|h: int|
            0 <= h < old(state)@.len() ==> (#[trigger] final(state)@[h])@ == next_state(
                old(state)@[h]@,
                keep@[h],
                dots::column(k@, key_head_of(h, n_key as int), s as int),
                dots::column(v@, h, s as int),
                beta@[h],
                s as int,
            ),
        r@ == answers(
            final(state)@,
            q@,
            scale,
            n_key as int,
            s as int,
            old(state)@.len() as int,
        ),
{
    let n: usize = state.len();
    let ghost first = state@;
    let mut next: Vec<Vec<u32>> = Vec::new();
    let mut out: Vec<u32> = Vec::new();
    let mut h: usize = 0;
    while h < n
        invariant
            h <= n,
            state@ == first,
            n == first.len(),
            shaped(q@, k@, v@, keep@, beta@, first, n_key as int, s as int),
            next@.len() == h,
            forall|g: int|
                0 <= g < h ==> (#[trigger] next@[g])@ == next_state(
                    first[g]@,
                    keep@[g],
                    dots::column(k@, key_head_of(g, n_key as int), s as int),
                    dots::column(v@, g, s as int),
                    beta@[g],
                    s as int,
                ),
            out@ == answers(next@, q@, scale, n_key as int, s as int, h as int),
        decreases n - h,
    {
        let kh: usize = key_head(h, n_key);
        let qv: Vec<u32> = part(q, kh, s, Ghost(n_key as int));
        let kv: Vec<u32> = part(k, kh, s, Ghost(n_key as int));
        let vv: Vec<u32> = part(v, h, s, Ghost(n as int));
        assert(first[h as int]@.len() == s * s);
        let mut m: Vec<u32> = vstd::slice::slice_to_vec(state[h].as_slice());
        let mut a: Vec<u32> = gdn_head(&mut m, keep[h], &qv, &kv, &vv, beta[h], scale);
        let ghost before = next@;
        next.push(m);
        out.append(&mut a);
        proof {
            lemma_answers(before, next@, q@, scale, n_key as int, s as int, h as int);
        }
        h += 1;
    }
    *state = next;
    out
}

proof fn lemma_answers(
    a: Seq<Vec<u32>>,
    b: Seq<Vec<u32>>,
    q: Seq<u32>,
    scale: u32,
    n_key: int,
    s: int,
    n: int,
)
    requires
        n <= a.len() <= b.len(),
        forall|i: int| 0 <= i < n ==> a[i] == b[i],
    ensures
        answers(a, q, scale, n_key, s, n) == answers(b, q, scale, n_key, s, n),
    decreases n,
{
    if n > 0 {
        lemma_answers(a, b, q, scale, n_key, s, n - 1);
    }
}

} // verus!
