//! A finite set of store-path identifiers.
use vstd::prelude::*;
use vstd::utf8::encode_utf8;

verus! {

/// The number of buckets of a set's lookup index.
pub const BUCKET_COUNT: usize = 4093;

/// The bucket of a byte string: a polynomial hash of its bytes, reduced at each step.
pub open spec fn bucket_of(b: Seq<u8>) -> nat
    decreases b.len(),
{
    if b.len() == 0 {
        0
    } else {
        ((bucket_of(b.drop_last()) as int * 31 + b.last() as int) % (BUCKET_COUNT as int)) as nat
    }
}

/// The bucket of an identifier: that of its UTF-8 encoding.
pub open spec fn bucket_of_name(n: Seq<char>) -> nat {
    bucket_of(encode_utf8(n))
}

/// Computes the bucket of `s`.
pub fn bucket_index(s: &str) -> (r: usize)
    ensures
        r == bucket_of_name(s@),
        r < BUCKET_COUNT,
{
    let b = s.as_bytes();
    let mut h: usize = 0;
    let mut i: usize = 0;
    while i < b.len()
        invariant
            i <= b@.len(),
            b@ == encode_utf8(s@),
            h == bucket_of(b@.take(i as int)),
            h < BUCKET_COUNT,
        decreases b@.len() - i,
    {
        proof {
            assert(b@.take(i + 1).drop_last() =~= b@.take(i as int));
        }
        h = (h * 31 + b[i] as usize) % BUCKET_COUNT;
        i = i + 1;
    }
    assert(b@.take(b@.len() as int) =~= b@);
    h
}

/// The characters of each identifier, in the order the strings are held.
pub open spec fn names_of(v: Seq<String>) -> Seq<Seq<char>> {
    v.map_values(|s: String| s@)
}

/// A finite set of identifiers, held without repetition, with an index that
/// lists, for each bucket, the positions of the identifiers that fall in it.
#[derive(Debug)]
pub struct NameSet {
    items: Vec<String>,
    buckets: Vec<Vec<usize>>,
}

impl View for NameSet {
    type V = Set<Seq<char>>;

    closed spec fn view(&self) -> Set<Seq<char>> {
        names_of(self.items@).to_set()
    }
}

impl NameSet {
    /// Well-formed: no identifier is held twice, and the index lists each
    /// position in the bucket of its identifier, and nowhere else.
    pub closed spec fn wf(&self) -> bool {
        &&& names_of(self.items@).no_duplicates()
        &&& self.buckets@.len() == BUCKET_COUNT
        &&& forall|k: int, t: int|
            0 <= k < BUCKET_COUNT && 0 <= t < self.buckets@[k]@.len() ==> {
                let j = #[trigger] self.buckets@[k]@[t];
                j < self.items@.len() && bucket_of_name(self.items@[j as int]@) == k
            }
        &&& forall|j: int|
            0 <= j < self.items@.len() ==> self.buckets@[bucket_of_name(
                #[trigger] self.items@[j]@,
            ) as int]@.contains(j as usize)
    }

    /// The view is a finite set.
    pub proof fn lemma_finite(&self)
        ensures
            self@.finite(),
    {
        names_of(self.items@).lemma_cardinality_of_set();
    }

    /// The empty set.
    pub fn new() -> (r: NameSet)
        ensures
            r.wf(),
            r@ == Set::<Seq<char>>::empty(),
    {
        let mut buckets: Vec<Vec<usize>> = Vec::new();
        let mut k: usize = 0;
        while k < BUCKET_COUNT
            invariant
                k <= BUCKET_COUNT,
                buckets@.len() == k,
                forall|i: int| 0 <= i < k ==> (#[trigger] buckets@[i])@.len() == 0,
            decreases BUCKET_COUNT - k,
        {
            buckets.push(Vec::new());
            k = k + 1;
        }
        let r = NameSet { items: Vec::new(), buckets };
        assert(names_of(r.items@).to_set() =~= Set::<Seq<char>>::empty());
        r
    }

    /// Whether `name` is a member.
    pub fn contains(&self, name: &String) -> (r: bool)
        requires
            self.wf(),
        ensures
            r == self@.contains(name@),
    {
        let n_items = self.items.len();
        let k = bucket_index(name.as_str());
        let bucket = &self.buckets[k];
        let mut t: usize = 0;
        while t < bucket.len()
            invariant
                self.wf(),
                n_items == self.items@.len(),
                k == bucket_of_name(name@),
                k < BUCKET_COUNT,
                *bucket == self.buckets@[k as int],
                t <= bucket@.len(),
                forall|u: int| 0 <= u < t ==> self.items@[#[trigger] bucket@[u] as int]@ != name@,
            decreases bucket@.len() - t,
        {
            let j = bucket[t];
            assert(j < self.items@.len());
            if self.items[j] == *name {
                assert(names_of(self.items@)[j as int] == name@);
                return true;
            }
            t = t + 1;
        }
        proof {
            if names_of(self.items@).contains(name@) {
                let j = choose|j: int|
                    0 <= j < names_of(self.items@).len() && names_of(self.items@)[j] == name@;
                assert(self.items@[j]@ == name@);
                assert(bucket@.contains(j as usize));
                let u = choose|u: int| 0 <= u < bucket@.len() && bucket@[u] == j as usize;
                assert(bucket@[u] as int == j);
                assert(self.items@[bucket@[u] as int]@ != name@);
            }
            assert(!self@.contains(name@));
        }
        false
    }

    /// Adds `name`; the result says whether it was absent before.
    pub fn insert(&mut self, name: String) -> (r: bool)
        requires
            old(self).wf(),
        ensures
            final(self).wf(),
            final(self)@ == old(self)@.insert(name@),
            r == !old(self)@.contains(name@),
    {
        if self.contains(&name) {
            assert(old(self)@.insert(name@) =~= old(self)@);
            false
        } else {
            let ghost before = names_of(self.items@);
            let ghost old_items = self.items@;
            let ghost old_buckets = self.buckets@;
            let k = bucket_index(name.as_str());
            let j = self.items.len();
            self.items.push(name);
            self.buckets[k].push(j);
            proof {
                assert(names_of(self.items@) =~= before.push(name@));
                before.lemma_push_to_set_commute(name@);
                assert(names_of(self.items@).no_duplicates()) by {
                    assert forall|a: int, b: int|
                        0 <= a < b < names_of(self.items@).len() implies names_of(
                        self.items@,
                    )[a] != names_of(self.items@)[b] by {
                        if b == before.len() {
                            assert(before.contains(before[a]));
                        }
                    }
                }
                assert forall|kk: int, t: int|
                    0 <= kk < BUCKET_COUNT && 0 <= t < self.buckets@[kk]@.len() implies {
                        let i = #[trigger] self.buckets@[kk]@[t];
                        i < self.items@.len() && bucket_of_name(self.items@[i as int]@) == kk
                    } by {
                    if kk != k || t < old_buckets[kk]@.len() {
                        let i = old_buckets[kk]@[t];
                        assert(self.buckets@[kk]@[t] == i);
                        assert(self.items@[i as int] == old_items[i as int]);
                    }
                }
                assert forall|i: int| 0 <= i < self.items@.len() implies self.buckets@[bucket_of_name(
                    #[trigger] self.items@[i]@,
                ) as int]@.contains(i as usize) by {
                    if i < old_items.len() {
                        assert(self.items@[i] == old_items[i]);
                        let kk = bucket_of_name(old_items[i]@) as int;
                        assert(old_buckets[kk]@.contains(i as usize));
                        let u = choose|u: int| 0 <= u < old_buckets[kk]@.len() && old_buckets[kk]@[u] == i as usize;
                        assert(self.buckets@[kk]@[u] == i as usize);
                    } else {
                        assert(self.buckets@[k as int]@.last() == j);
                    }
                }
            }
            true
        }
    }

    /// The number of members.
    pub fn len(&self) -> (r: usize)
        requires
            self.wf(),
        ensures
            r as nat == self@.len(),
    {
        proof {
            names_of(self.items@).unique_seq_to_set();
        }
        self.items.len()
    }

    /// Whether the set has no member.
    pub fn is_empty(&self) -> (r: bool)
        requires
            self.wf(),
        ensures
            r == (self@ == Set::<Seq<char>>::empty()),
    {
        let n = self.len();
        proof {
            self.lemma_finite();
            if n > 0 {
                assert(self@.len() > 0);
                assert(self@ != Set::<Seq<char>>::empty());
            } else {
                assert(self@ =~= Set::<Seq<char>>::empty());
            }
        }
        n == 0
    }

    /// The set of the identifiers in `v`; repeated ones count once.
    pub fn from_vec(v: Vec<String>) -> (r: NameSet)
        ensures
            r.wf(),
            r@ == names_of(v@).to_set(),
    {
        let mut r = NameSet::new();
        let mut i: usize = 0;
        while i < v.len()
            invariant
                i <= v@.len(),
                r.wf(),
                r@ == names_of(v@.take(i as int)).to_set(),
            decreases v@.len() - i,
        {
            let s = v[i].clone();
            r.insert(s);
            proof {
                assert(v@.take(i + 1) =~= v@.take(i as int).push(v@[i as int]));
                assert(names_of(v@.take(i + 1)) =~= names_of(v@.take(i as int)).push(v@[i as int]@));
                names_of(v@.take(i as int)).lemma_push_to_set_commute(v@[i as int]@);
            }
            i = i + 1;
        }
        assert(v@.take(v@.len() as int) =~= v@);
        r
    }

    /// The members, each once, in the order they were first added.
    pub fn to_vec(&self) -> (r: Vec<String>)
        requires
            self.wf(),
        ensures
            names_of(r@).to_set() == self@,
            names_of(r@).no_duplicates(),
    {
        self.items.clone()
    }

    /// The members of `self` whose membership in `other` is `inside`.
    fn filter_by(&self, other: &NameSet, inside: bool) -> (r: NameSet)
        requires
            self.wf(),
            other.wf(),
        ensures
            r.wf(),
            r@ == self@.filter(|n: Seq<char>| other@.contains(n) == inside),
    {
        let mut r = NameSet::new();
        let mut i: usize = 0;
        while i < self.items.len()
            invariant
                i <= self.items@.len(),
                other.wf(),
                r.wf(),
                r@ == names_of(self.items@.take(i as int)).to_set().filter(
                    |n: Seq<char>| other@.contains(n) == inside,
                ),
            decreases self.items@.len() - i,
        {
            let s = &self.items[i];
            let ghost prev = names_of(self.items@.take(i as int));
            proof {
                assert(self.items@.take(i + 1) =~= self.items@.take(i as int).push(self.items@[i as int]));
                assert(names_of(self.items@.take(i + 1)) =~= prev.push(s@));
                prev.lemma_push_to_set_commute(s@);
            }
            if other.contains(s) == inside {
                r.insert(s.clone());
            }
            proof {
                assert(r@ =~= names_of(self.items@.take(i + 1)).to_set().filter(
                    |n: Seq<char>| other@.contains(n) == inside,
                ));
            }
            i = i + 1;
        }
        assert(self.items@.take(self.items@.len() as int) =~= self.items@);
        r
    }

    /// The members of `self` that are also in `other`.
    pub fn intersection(&self, other: &NameSet) -> (r: NameSet)
        requires
            self.wf(),
            other.wf(),
        ensures
            r.wf(),
            r@ == self@.intersect(other@),
    {
        let r = self.filter_by(other, true);
        assert(r@ =~= self@.intersect(other@));
        r
    }

    /// The members of `self` that are not in `other`.
    pub fn difference(&self, other: &NameSet) -> (r: NameSet)
        requires
            self.wf(),
            other.wf(),
        ensures
            r.wf(),
            r@ == self@.difference(other@),
    {
        let r = self.filter_by(other, false);
        assert(r@ =~= self@.difference(other@));
        r
    }

    /// The members of either set.
    pub fn union(&self, other: &NameSet) -> (r: NameSet)
        requires
            self.wf(),
            other.wf(),
        ensures
            r.wf(),
            r@ == self@.union(other@),
    {
        let mut r = self.filter_by(other, false);
        let mut i: usize = 0;
        while i < other.items.len()
            invariant
                i <= other.items@.len(),
                other.wf(),
                r.wf(),
                r@ == self@.difference(other@).union(names_of(other.items@.take(i as int)).to_set()),
            decreases other.items@.len() - i,
        {
            let ghost prev = names_of(other.items@.take(i as int));
            proof {
                assert(other.items@.take(i + 1) =~= other.items@.take(i as int).push(other.items@[i as int]));
                assert(names_of(other.items@.take(i + 1)) =~= prev.push(other.items@[i as int]@));
                prev.lemma_push_to_set_commute(other.items@[i as int]@);
            }
            r.insert(other.items[i].clone());
            proof {
                assert(r@ =~= self@.difference(other@).union(names_of(other.items@.take(i + 1)).to_set()));
            }
            i = i + 1;
        }
        assert(other.items@.take(other.items@.len() as int) =~= other.items@);
        assert(r@ =~= self@.union(other@));
        r
    }
}

} // verus!
