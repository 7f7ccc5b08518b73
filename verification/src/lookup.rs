//! An append-only table of string pairs with hashed lookup; of equal keys the last one counts.

use vstd::prelude::*;
use vstd::string::*;

use crate::text;

verus! {

/// A key: a pair of strings.
pub type Key = (Seq<char>, Seq<char>);

/// The last place of `k` among `keys`.
pub open spec fn last_place(keys: Seq<Key>, k: Key) -> Option<int>
    decreases keys.len(),
{
    if keys.len() == 0 {
        None
    } else if keys.last() == k {
        Some(keys.len() - 1)
    } else {
        last_place(keys.drop_last(), k)
    }
}

/// A key is found exactly where it stands last.
pub proof fn lemma_last_place(keys: Seq<Key>, k: Key)
    ensures
        match last_place(keys, k) {
            Some(i) => 0 <= i < keys.len() && keys[i] == k && forall|j: int|
                i < j < keys.len() ==> #[trigger] keys[j] != k,
            None => forall|j: int| 0 <= j < keys.len() ==> #[trigger] keys[j] != k,
        },
    decreases keys.len(),
{
    if keys.len() > 0 && keys.last() != k {
        let d = keys.drop_last();
        lemma_last_place(d, k);
        match last_place(d, k) {
            Some(i) => {
                assert forall|j: int| i < j < keys.len() implies #[trigger] keys[j] != k by {
                    if j < d.len() {
                        assert(d[j] != k);
                    }
                }
            },
            None => {
                assert forall|j: int| 0 <= j < keys.len() implies #[trigger] keys[j] != k by {
                    if j < d.len() {
                        assert(d[j] != k);
                    }
                }
            },
        }
    }
}

pub const BUCKETS: usize = 65536;

spec fn hash_bytes(seed: int, b: Seq<u8>) -> int
    decreases b.len(),
{
    if b.len() == 0 {
        seed
    } else {
        (hash_bytes(seed, b.drop_last()) * 31 + b.last() as int + 1) % 1000000007
    }
}

spec fn hash_key(k: Key) -> int {
    hash_bytes(hash_bytes(7, vstd::utf8::encode_utf8(k.0)), vstd::utf8::encode_utf8(k.1))
        % BUCKETS as int
}

fn hash_of(seed: u64, s: &str) -> (r: u64)
    requires
        seed < 1000000007,
    ensures
        r == hash_bytes(seed as int, vstd::utf8::encode_utf8(s@)),
        r < 1000000007,
{
    let b: &[u8] = s.as_bytes();
    let mut h: u64 = seed;
    let mut i: usize = 0;
    assert(b@.take(0) =~= Seq::<u8>::empty());
    while i < b.len()
        invariant
            i <= b@.len(),
            h < 1000000007,
            h == hash_bytes(seed as int, b@.take(i as int)),
        decreases b@.len() - i,
    {
        assert(b@.take(i + 1).drop_last() =~= b@.take(i as int));
        h = (h * 31 + b[i] as u64 + 1) % 1000000007;
        i += 1;
    }
    assert(b@.take(i as int) =~= b@);
    h
}

/// The table.
#[derive(Debug)]
pub struct Table {
    keys: Vec<(String, String)>,
    buckets: Vec<Vec<usize>>,
}

impl Table {
    /// The keys in the order in which they were added.
    pub closed spec fn view(&self) -> Seq<Key> {
        Seq::new(self.keys@.len(), |i: int| (self.keys@[i].0@, self.keys@[i].1@))
    }

    /// Each bucket lists, in order, the places of the keys that hash to it.
    pub closed spec fn wf(&self) -> bool {
        &&& self.buckets@.len() == BUCKETS
        &&& forall|b: int, j: int|
            0 <= b < BUCKETS && 0 <= j < self.buckets@[b]@.len() ==> #[trigger] self.buckets@[b]@[j]
                < self.keys@.len()
        &&& forall|b: int, i: int, j: int|
            0 <= b < BUCKETS && 0 <= i < j < self.buckets@[b]@.len()
                ==> #[trigger] self.buckets@[b]@[i] < #[trigger] self.buckets@[b]@[j]
        &&& forall|i: int|
            0 <= i < self.keys@.len() ==> holds(self.buckets@[hash_key(#[trigger] self@[i])]@, i)
    }

    pub fn new() -> (r: Table)
        ensures
            r.wf(),
            r@ == Seq::<Key>::empty(),
    {
        let mut buckets: Vec<Vec<usize>> = Vec::new();
        while buckets.len() < BUCKETS
            invariant
                buckets@.len() <= BUCKETS,
                forall|b: int| 0 <= b < buckets@.len() ==> (#[trigger] buckets@[b])@.len() == 0,
            decreases BUCKETS - buckets@.len(),
        {
            buckets.push(Vec::new());
        }
        let r = Table { keys: Vec::new(), buckets };
        assert(r@ =~= Seq::<Key>::empty());
        r
    }

    pub fn len(&self) -> (r: usize)
        ensures
            r == self@.len(),
    {
        self.keys.len()
    }

    /// Adds a key behind the others.
    pub fn add(&mut self, a: String, b: String)
        requires
            old(self).wf(),
        ensures
            final(self).wf(),
            final(self)@ == old(self)@.push((a@, b@)),
    {
        let h: u64 = hash_of(hash_of(7, a.as_str()), b.as_str()) % (BUCKETS as u64);
        let n: usize = self.keys.len();
        let ghost k = (a@, b@);
        let ghost before = *self;
        self.keys.push((a, b));
        let mut bucket: Vec<usize> = Vec::new();
        std::mem::swap(&mut bucket, &mut self.buckets[h as usize]);
        let ghost old_bucket = bucket@;
        bucket.push(n);
        std::mem::swap(&mut bucket, &mut self.buckets[h as usize]);
        proof {
            assert(self@ =~= before@.push(k));
            assert(self.buckets@ =~= before.buckets@.update(h as int, self.buckets@[h as int]));
            assert(self.buckets@[h as int]@ == old_bucket.push(n));
            assert(old_bucket == before.buckets@[h as int]@);
            assert forall|i: int| 0 <= i < self.keys@.len() implies holds(
                self.buckets@[hash_key(#[trigger] self@[i])]@,
                i,
            ) by {
                if i < n {
                    assert(self@[i] == before@[i]);
                    let b = hash_key(before@[i]);
                    let j = choose|j: int|
                        0 <= j < before.buckets@[b]@.len() && #[trigger] before.buckets@[b]@[j] == i;
                    assert(self.buckets@[b]@[j] == i);
                } else {
                    assert(self@[i] == k);
                    assert(self.buckets@[h as int]@[old_bucket.len() as int] == n);
                }
            }
        }
    }

    /// The last place of a key.
    pub fn find(&self, a: &str, b: &str) -> (r: Option<usize>)
        requires
            self.wf(),
        ensures
            match r {
                Some(i) => last_place(self@, (a@, b@)) == Some(i as int),
                None => last_place(self@, (a@, b@)) is None,
            },
    {
        let h: u64 = hash_of(hash_of(7, a), b) % (BUCKETS as u64);
        let bucket: &Vec<usize> = &self.buckets[h as usize];
        let ghost k = (a@, b@);
        proof {
            lemma_last_place(self@, k);
        }
        let mut j: usize = bucket.len();
        while j > 0
            invariant
                self.wf(),
                h == hash_key(k),
                k == (a@, b@),
                bucket@ == self.buckets@[h as int]@,
                j <= bucket@.len(),
                forall|i: int| j <= i < bucket@.len() ==> self@[#[trigger] bucket@[i] as int] != k,
            decreases j,
        {
            j -= 1;
            let i: usize = bucket[j];
            assert(i < self.keys@.len());
            assert(self@[i as int] == (self.keys@[i as int].0@, self.keys@[i as int].1@));
            if text::same(self.keys[i].0.as_str(), a) && text::same(self.keys[i].1.as_str(), b) {
                proof {
                    lemma_last_place(self@, k);
                    let l = last_place(self@, k)->0;
                    if l != i {
                        assert(holds(self.buckets@[hash_key(self@[l])]@, l));
                        let x = choose|x: int| 0 <= x < bucket@.len() && #[trigger] bucket@[x] == l;
                        if x < j {
                            assert(self.buckets@[h as int]@[x] < self.buckets@[h as int]@[j as int]);
                        }
                    }
                }
                return Some(i);
            }
        }
        proof {
            lemma_last_place(self@, k);
            if let Some(l) = last_place(self@, k) {
                assert(holds(self.buckets@[hash_key(self@[l])]@, l));
                let x = choose|x: int| 0 <= x < bucket@.len() && #[trigger] bucket@[x] == l;
                assert(self@[bucket@[x] as int] != k);
            }
        }
        None
    }
}

/// The place `i` is among those listed.
spec fn holds(s: Seq<usize>, i: int) -> bool {
    exists|j: int| 0 <= j < s.len() && #[trigger] s[j] == i
}

} // verus!
