use vstd::prelude::*;
use crate::water_sort::game::uviews;

verus! {

/// Number of buckets of the set of seen bottle lists.
pub const BUCKETS: usize = 65536;

/// Hash of the units `u` folded onto `h`.
pub open spec fn hash_units(h: nat, u: Seq<u8>) -> nat
    decreases u.len(),
{
    if u.len() == 0 {
        h
    } else {
        ((hash_units(h, u.drop_last()) * 31 + u.last() + 1) % 1_000_003) as nat
    }
}

/// Hash of a bottle list.
pub open spec fn hash_key(k: Seq<Seq<u8>>) -> nat
    decreases k.len(),
{
    if k.len() == 0 {
        0
    } else {
        ((hash_units(hash_key(k.drop_last()), k.last()) * 31) % 1_000_003) as nat
    }
}

/// The bucket a bottle list goes to.
pub open spec fn bucket_of(k: Seq<Seq<u8>>) -> int {
    (hash_key(k) % (BUCKETS as nat)) as int
}

proof fn lemma_hash_units_bound(h: nat, u: Seq<u8>)
    requires
        h < 1_000_003,
    ensures
        hash_units(h, u) < 1_000_003,
    decreases u.len(),
{
    if u.len() > 0 {
        lemma_hash_units_bound(h, u.drop_last());
    }
}

proof fn lemma_hash_key_bound(k: Seq<Seq<u8>>)
    ensures
        hash_key(k) < 1_000_003,
    decreases k.len(),
{
    if k.len() > 0 {
        lemma_hash_key_bound(k.drop_last());
    }
}

/// The bucket of a bottle list.
fn bucket_index(k: &Vec<Vec<u8>>) -> (b: usize)
    ensures
        b == bucket_of(uviews(k@)),
        b < BUCKETS,
{
    let mut h: u64 = 0;
    let mut i: usize = 0;
    while i < k.len()
        invariant
            i <= k@.len(),
            h == hash_key(uviews(k@).subrange(0, i as int)),
            h < 1_000_003,
        decreases k@.len() - i,
    {
        let u = &k[i];
        let ghost h0 = h as nat;
        let mut j: usize = 0;
        while j < u.len()
            invariant
                j <= u@.len(),
                h == hash_units(h0, u@.subrange(0, j as int)),
                h < 1_000_003,
                h0 < 1_000_003,
            decreases u@.len() - j,
        {
            proof {
                assert(u@.subrange(0, j + 1).drop_last() =~= u@.subrange(0, j as int));
            }
            h = (h * 31 + u[j] as u64 + 1) % 1_000_003;
            j += 1;
        }
        proof {
            assert(u@.subrange(0, u@.len() as int) =~= u@);
            let ks = uviews(k@).subrange(0, i + 1);
            assert(ks.drop_last() =~= uviews(k@).subrange(0, i as int));
            assert(ks.last() == u@);
        }
        h = (h * 31) % 1_000_003;
        i += 1;
    }
    proof {
        assert(uviews(k@).subrange(0, k@.len() as int) =~= uviews(k@));
    }
    (h % (BUCKETS as u64)) as usize
}

/// Two bottle lists are equal, unit for unit.
fn same_key(a: &Vec<Vec<u8>>, b: &Vec<Vec<u8>>) -> (e: bool)
    ensures
        e == (uviews(a@) == uviews(b@)),
{
    if a.len() != b.len() {
        proof {
            assert(uviews(a@).len() != uviews(b@).len());
        }
        return false;
    }
    let mut i: usize = 0;
    while i < a.len()
        invariant
            a@.len() == b@.len(),
            i <= a@.len(),
            forall|k: int| 0 <= k < i ==> a@[k]@ == b@[k]@,
        decreases a@.len() - i,
    {
        let x = &a[i];
        let y = &b[i];
        if x.len() != y.len() {
            proof {
                assert(uviews(a@)[i as int] != uviews(b@)[i as int]);
            }
            return false;
        }
        let mut j: usize = 0;
        while j < x.len()
            invariant
                x@.len() == y@.len(),
                j <= x@.len(),
                i < a@.len(),
                a@.len() == b@.len(),
                x@ == a@[i as int]@,
                y@ == b@[i as int]@,
                forall|k: int| 0 <= k < j ==> x@[k] == y@[k],
            decreases x@.len() - j,
        {
            if x[j] != y[j] {
                proof {
                    assert(uviews(a@)[i as int][j as int] != uviews(b@)[i as int][j as int]);
                }
                return false;
            }
            j += 1;
        }
        proof {
            assert(x@ =~= y@);
        }
        i += 1;
    }
    proof {
        assert(uviews(a@) =~= uviews(b@));
    }
    true
}

/// A set of bottle lists, hashed into buckets.
pub struct SeenStates {
    buckets: Vec<Vec<Vec<Vec<u8>>>>,
}

impl SeenStates {
    /// Every list lies in the bucket its hash names.
    pub closed spec fn wf(&self) -> bool {
        &&& self.buckets@.len() == BUCKETS
        &&& forall|b: int, i: int|
            0 <= b < BUCKETS && 0 <= i < self.buckets@[b]@.len() ==> bucket_of(uviews(#[trigger] self.buckets@[b]@[i]@)) == b
    }

    /// The bottle lists held.
    pub closed spec fn contents(&self) -> Set<Seq<Seq<u8>>> {
        Set::new(
            |k: Seq<Seq<u8>>|
                exists|b: int, i: int|
                    0 <= b < self.buckets@.len() && 0 <= i < self.buckets@[b]@.len() && uviews(
                        #[trigger] self.buckets@[b]@[i]@,
                    ) == k,
        )
    }

    /// The empty set.
    pub fn new() -> (s: Self)
        ensures
            s.wf(),
            s.contents() == Set::<Seq<Seq<u8>>>::empty(),
    {
        let mut buckets: Vec<Vec<Vec<Vec<u8>>>> = Vec::with_capacity(BUCKETS);
        let mut b: usize = 0;
        while b < BUCKETS
            invariant
                b <= BUCKETS,
                buckets@.len() == b,
                forall|x: int| 0 <= x < b ==> (#[trigger] buckets@[x])@.len() == 0,
            decreases BUCKETS - b,
        {
            buckets.push(Vec::new());
            b += 1;
        }
        let s = SeenStates { buckets };
        assert(s.contents() =~= Set::<Seq<Seq<u8>>>::empty());
        s
    }

    /// True iff the set holds `k`.
    pub fn contains(&self, k: &Vec<Vec<u8>>) -> (r: bool)
        requires
            self.wf(),
        ensures
            r == self.contents().contains(uviews(k@)),
    {
        let b = bucket_index(k);
        let bucket = &self.buckets[b];
        let mut i: usize = 0;
        while i < bucket.len()
            invariant
                i <= bucket@.len(),
                b < BUCKETS,
                self.wf(),
                bucket == &self.buckets@[b as int],
                forall|j: int| 0 <= j < i ==> uviews(#[trigger] bucket@[j]@) != uviews(k@),
            decreases bucket@.len() - i,
        {
            if same_key(&bucket[i], k) {
                proof {
                    assert(uviews(self.buckets@[b as int]@[i as int]@) == uviews(k@));
                    assert(self.contents().contains(uviews(k@)));
                }
                return true;
            }
            i += 1;
        }
        proof {
            if self.contents().contains(uviews(k@)) {
                let (b2, i2) = choose|b2: int, i2: int|
                    0 <= b2 < self.buckets@.len() && 0 <= i2 < self.buckets@[b2]@.len() && uviews(
                        #[trigger] self.buckets@[b2]@[i2]@,
                    ) == uviews(k@);
                assert(bucket_of(uviews(self.buckets@[b2]@[i2]@)) == b2);
                assert(b2 == b);
                assert(uviews(bucket@[i2]@) != uviews(k@));
            }
        }
        false
    }

    /// Adds `k`.
    pub fn insert(&mut self, k: Vec<Vec<u8>>)
        requires
            old(self).wf(),
        ensures
            final(self).wf(),
            final(self).contents() == old(self).contents().insert(uviews(k@)),
    {
        let b = bucket_index(&k);
        let ghost kv = uviews(k@);
        let ghost before = self.buckets@;
        self.buckets[b].push(k);
        proof {
            assert forall|x: int| 0 <= x < BUCKETS && x != b implies self.buckets@[x] == before[x] by {}
            assert(self.buckets@[b as int]@ == before[b as int]@.push(k));
            assert forall|x: int, i: int|
                0 <= x < BUCKETS && 0 <= i < self.buckets@[x]@.len() implies bucket_of(uviews(#[trigger] self.buckets@[x]@[i]@)) == x by {
                if x == b && i == before[b as int]@.len() {
                } else if x == b {
                    assert(self.buckets@[x]@[i] == before[x]@[i]);
                } else {
                    assert(self.buckets@[x] == before[x]);
                }
            }
            assert forall|key: Seq<Seq<u8>>| #[trigger] self.contents().contains(key) <==> old(self).contents().insert(kv).contains(key) by {
                if self.contents().contains(key) {
                    let (b2, i2) = choose|b2: int, i2: int|
                        0 <= b2 < self.buckets@.len() && 0 <= i2 < self.buckets@[b2]@.len() && uviews(
                            #[trigger] self.buckets@[b2]@[i2]@,
                        ) == key;
                    if !(b2 == b && i2 == before[b as int]@.len()) {
                        if b2 == b {
                            assert(self.buckets@[b2]@[i2] == before[b2]@[i2]);
                        } else {
                            assert(self.buckets@[b2] == before[b2]);
                        }
                        assert(old(self).contents().contains(key));
                    }
                }
                if old(self).contents().insert(kv).contains(key) {
                    if key == kv {
                        assert(uviews(self.buckets@[b as int]@[before[b as int]@.len() as int]@) == key);
                    } else {
                        let (b2, i2) = choose|b2: int, i2: int|
                            0 <= b2 < before.len() && 0 <= i2 < before[b2]@.len() && uviews(#[trigger] before[b2]@[i2]@) == key;
                        if b2 == b {
                            assert(self.buckets@[b2]@[i2] == before[b2]@[i2]);
                        } else {
                            assert(self.buckets@[b2] == before[b2]);
                        }
                        assert(uviews(self.buckets@[b2]@[i2]@) == key);
                    }
                }
            }
            assert(self.contents() =~= old(self).contents().insert(kv));
        }
    }
}

} // verus!
