//! Column families: named keyspaces of the store.
//!
//! An [`OrderedColumn`] is keyed by a number (a height or a subtree index) and
//! answers ordered queries: the last entry, the entry at or below a key, and
//! half-open ranges in either direction. A [`ByteColumn`] is keyed by opaque
//! bytes (a hash, a nullifier, a tree root) and answers lookups only.
use vstd::prelude::*;

verus! {

/// Copies a byte string.
pub fn copy_bytes(b: &Vec<u8>) -> (r: Vec<u8>)
    ensures
        r@ == b@,
{
    let r = b.clone();
    proof {
        assert(r@ =~= b@);
    }
    r
}

/// Compares two byte strings.
pub fn bytes_equal(a: &Vec<u8>, b: &Vec<u8>) -> (r: bool)
    ensures
        r == (a@ == b@),
{
    if a.len() != b.len() {
        return false;
    }
    let mut i: usize = 0;
    while i < a.len()
        invariant
            a@.len() == b@.len(),
            0 <= i <= a@.len(),
            forall|j: int| 0 <= j < i ==> a@[j] == b@[j],
        decreases a@.len() - i,
    {
        if a[i] != b[i] {
            assert(a@[i as int] != b@[i as int]);
            return false;
        }
        i += 1;
    }
    proof {
        assert(a@ =~= b@);
    }
    true
}

/// Whether `k` lies in the half-open range that starts at `from` and ends
/// before `to` (with no end when `to` is `None`).
pub open spec fn in_range(k: u32, from: u32, to: Option<u32>) -> bool {
    &&& from <= k
    &&& (to matches Some(t) ==> k < t)
}

/// The entries of `r` are entries of `m`, with strictly increasing keys, and
/// every key of `m` in the range is among them.
pub open spec fn is_ascending_range(
    r: Seq<(u32, Vec<u8>)>,
    m: Map<u32, Seq<u8>>,
    from: u32,
    to: Option<u32>,
) -> bool {
    &&& forall|i: int, j: int| 0 <= i < j < r.len() ==> #[trigger] r[i].0 < #[trigger] r[j].0
    &&& forall|i: int|
        0 <= i < r.len() ==> {
            &&& in_range(#[trigger] r[i].0, from, to)
            &&& m.contains_key(r[i].0)
            &&& r[i].1@ == m[r[i].0]
        }
    &&& forall|k: u32|
        m.contains_key(k) && in_range(k, from, to) ==> exists|i: int|
            0 <= i < r.len() && #[trigger] r[i].0 == k
}

/// As [`is_ascending_range`], with strictly decreasing keys.
pub open spec fn is_descending_range(
    r: Seq<(u32, Vec<u8>)>,
    m: Map<u32, Seq<u8>>,
    from: u32,
    to: Option<u32>,
) -> bool {
    &&& forall|i: int, j: int| 0 <= i < j < r.len() ==> #[trigger] r[i].0 > #[trigger] r[j].0
    &&& forall|i: int|
        0 <= i < r.len() ==> {
            &&& in_range(#[trigger] r[i].0, from, to)
            &&& m.contains_key(r[i].0)
            &&& r[i].1@ == m[r[i].0]
        }
    &&& forall|k: u32|
        m.contains_key(k) && in_range(k, from, to) ==> exists|i: int|
            0 <= i < r.len() && #[trigger] r[i].0 == k
}

/// A column keyed by numbers, kept in increasing key order.
pub struct OrderedColumn {
    entries: Vec<(u32, Vec<u8>)>,
}

impl OrderedColumn {
    /// The entry at `i` has key `k`.
    pub closed spec fn key_at(&self, k: u32, i: int) -> bool {
        0 <= i < self.entries@.len() && self.entries@[i].0 == k
    }

    /// Keys strictly increase along the entries.
    pub closed spec fn wf(&self) -> bool {
        forall|i: int, j: int|
            0 <= i < j < self.entries@.len() ==> #[trigger] self.entries@[i].0
                < #[trigger] self.entries@[j].0
    }

    proof fn lemma_entry(&self, i: int)
        requires
            self.wf(),
            0 <= i < self.entries@.len(),
        ensures
            self@.contains_key(self.entries@[i].0),
            self@[self.entries@[i].0] == self.entries@[i].1@,
    {
        let k = self.entries@[i].0;
        assert(self.key_at(k, i));
        let j = choose|j: int| self.key_at(k, j);
        assert(j == i) by {
            if j < i {
                assert(self.entries@[j].0 < self.entries@[i].0);
            } else if j > i {
                assert(self.entries@[i].0 < self.entries@[j].0);
            }
        }
    }

    proof fn lemma_key(&self, k: u32) -> (i: int)
        requires
            self.wf(),
            self@.contains_key(k),
        ensures
            0 <= i < self.entries@.len(),
            self.entries@[i].0 == k,
            self@[k] == self.entries@[i].1@,
    {
        let i = choose|i: int| self.key_at(k, i);
        self.lemma_entry(i);
        i
    }

    /// An empty column.
    pub fn new() -> (r: Self)
        ensures
            r.wf(),
            r@ == Map::<u32, Seq<u8>>::empty(),
    {
        let r = OrderedColumn { entries: Vec::new() };
        assert(r@ =~= Map::<u32, Seq<u8>>::empty());
        r
    }

    /// The first position whose key is at least `k`.
    fn lower_bound(&self, k: u32) -> (p: usize)
        requires
            self.wf(),
        ensures
            p <= self.entries@.len(),
            forall|j: int| 0 <= j < p ==> self.entries@[j].0 < k,
            forall|j: int| p <= j < self.entries@.len() ==> self.entries@[j].0 >= k,
    {
        let mut p: usize = 0;
        while p < self.entries.len() && self.entries[p].0 < k
            invariant
                self.wf(),
                p <= self.entries@.len(),
                forall|j: int| 0 <= j < p ==> self.entries@[j].0 < k,
            decreases self.entries@.len() - p,
        {
            p += 1;
        }
        p
    }

    /// The value stored under `k`.
    pub fn get(&self, k: u32) -> (r: Option<Vec<u8>>)
        requires
            self.wf(),
        ensures
            match r {
                Some(v) => self@.contains_key(k) && v@ == self@[k],
                None => !self@.contains_key(k),
            },
    {
        let p = self.lower_bound(k);
        if p < self.entries.len() && self.entries[p].0 == k {
            proof {
                self.lemma_entry(p as int);
            }
            Some(copy_bytes(&self.entries[p].1))
        } else {
            proof {
                if self@.contains_key(k) {
                    let i = self.lemma_key(k);
                    if i < p {
                    } else if i > p {
                        assert(self.entries@[p as int].0 < self.entries@[i].0);
                    }
                }
            }
            None
        }
    }

    /// Whether a value is stored under `k`.
    pub fn contains(&self, k: u32) -> (r: bool)
        requires
            self.wf(),
        ensures
            r == self@.contains_key(k),
    {
        self.get(k).is_some()
    }

    /// Stores `v` under `k`, replacing any value there.
    pub fn insert(&mut self, k: u32, v: Vec<u8>)
        requires
            old(self).wf(),
        ensures
            final(self).wf(),
            final(self)@ == old(self)@.insert(k, v@),
    {
        let ghost old_self = *self;
        let ghost vv = v@;
        let p = self.lower_bound(k);
        if p < self.entries.len() && self.entries[p].0 == k {
            self.entries.set(p, (k, v));
            proof {
                assert(self.entries@ == old_self.entries@.update(p as int, (k, self.entries@[p as int].1)));
                assert forall|i: int, j: int|
                    0 <= i < j < self.entries@.len() implies #[trigger] self.entries@[i].0
                        < #[trigger] self.entries@[j].0 by {
                    assert(old_self.entries@[i].0 < old_self.entries@[j].0);
                }
                assert forall|kk: u32| #[trigger] self@.contains_key(kk) implies old_self@.insert(
                    k,
                    vv,
                ).contains_key(kk) && self@[kk] == old_self@.insert(k, vv)[kk] by {
                    let i = self.lemma_key(kk);
                    if i != p {
                        old_self.lemma_entry(i);
                    }
                }
                assert forall|kk: u32| #[trigger]
                    old_self@.insert(k, vv).contains_key(kk) implies self@.contains_key(kk) by {
                    if kk == k {
                        self.lemma_entry(p as int);
                    } else {
                        let i = old_self.lemma_key(kk);
                        self.lemma_entry(i);
                    }
                }
                assert(self@ =~= old_self@.insert(k, vv));
            }
        } else {
            self.entries.insert(p, (k, v));
            proof {
                assert forall|i: int, j: int|
                    0 <= i < j < self.entries@.len() implies #[trigger] self.entries@[i].0
                        < #[trigger] self.entries@[j].0 by {
                    if j < p {
                        assert(old_self.entries@[i].0 < old_self.entries@[j].0);
                    } else if j == p {
                    } else if i < p {
                        assert(old_self.entries@[j - 1].0 >= k);
                    } else if i == p {
                        assert(old_self.entries@[j - 1].0 >= k);
                    } else {
                        assert(old_self.entries@[i - 1].0 < old_self.entries@[j - 1].0);
                    }
                }
                assert forall|kk: u32| #[trigger] self@.contains_key(kk) implies old_self@.insert(
                    k,
                    vv,
                ).contains_key(kk) && self@[kk] == old_self@.insert(k, vv)[kk] by {
                    let i = self.lemma_key(kk);
                    if i < p {
                        old_self.lemma_entry(i);
                    } else if i > p {
                        old_self.lemma_entry(i - 1);
                    }
                }
                assert forall|kk: u32| #[trigger]
                    old_self@.insert(k, vv).contains_key(kk) implies self@.contains_key(kk) by {
                    if kk == k {
                        self.lemma_entry(p as int);
                    } else {
                        let i = old_self.lemma_key(kk);
                        if i < p {
                            self.lemma_entry(i);
                        } else {
                            self.lemma_entry(i + 1);
                        }
                    }
                }
                assert(self@ =~= old_self@.insert(k, vv));
            }
        }
    }

    /// Removes the value stored under `k`, if any.
    pub fn delete(&mut self, k: u32)
        requires
            old(self).wf(),
        ensures
            final(self).wf(),
            final(self)@ == old(self)@.remove(k),
    {
        let ghost old_self = *self;
        let p = self.lower_bound(k);
        if p < self.entries.len() && self.entries[p].0 == k {
            self.entries.remove(p);
            proof {
                assert forall|i: int, j: int|
                    0 <= i < j < self.entries@.len() implies #[trigger] self.entries@[i].0
                        < #[trigger] self.entries@[j].0 by {
                    if j < p {
                        assert(old_self.entries@[i].0 < old_self.entries@[j].0);
                    } else if i < p {
                        assert(old_self.entries@[i].0 < old_self.entries@[j + 1].0);
                    } else {
                        assert(old_self.entries@[i + 1].0 < old_self.entries@[j + 1].0);
                    }
                }
                assert forall|kk: u32| #[trigger] self@.contains_key(kk) implies old_self@.remove(
                    k,
                ).contains_key(kk) && self@[kk] == old_self@.remove(k)[kk] by {
                    let i = self.lemma_key(kk);
                    if i < p {
                        old_self.lemma_entry(i);
                    } else {
                        old_self.lemma_entry(i + 1);
                        assert(old_self.entries@[p as int].0 < old_self.entries@[i + 1].0);
                    }
                }
                assert forall|kk: u32| #[trigger]
                    old_self@.remove(k).contains_key(kk) implies self@.contains_key(kk) by {
                    let i = old_self.lemma_key(kk);
                    if i < p {
                        self.lemma_entry(i);
                    } else {
                        self.lemma_entry(i - 1);
                    }
                }
                assert(self@ =~= old_self@.remove(k));
            }
        } else {
            proof {
                if old_self@.contains_key(k) {
                    let i = old_self.lemma_key(k);
                    if i > p {
                        assert(old_self.entries@[p as int].0 < old_self.entries@[i].0);
                    }
                }
                assert(self@ =~= old_self@.remove(k));
            }
        }
    }

    /// The entry with the greatest key, if the column is not empty.
    pub fn last_key_value(&self) -> (r: Option<(u32, Vec<u8>)>)
        requires
            self.wf(),
        ensures
            match r {
                Some((k, v)) => {
                    &&& self@.contains_key(k)
                    &&& v@ == self@[k]
                    &&& forall|j: u32| self@.contains_key(j) ==> j <= k
                },
                None => self@ == Map::<u32, Seq<u8>>::empty(),
            },
    {
        let n = self.entries.len();
        if n == 0 {
            proof {
                assert forall|kk: u32| !self@.contains_key(kk) by {
                    if self@.contains_key(kk) {
                        let i = self.lemma_key(kk);
                    }
                }
                assert(self@ =~= Map::<u32, Seq<u8>>::empty());
            }
            None
        } else {
            proof {
                self.lemma_entry(n - 1);
                assert forall|j: u32| self@.contains_key(j) implies j <= self.entries@[n - 1].0 by {
                    let i = self.lemma_key(j);
                    if i < n - 1 {
                        assert(self.entries@[i].0 < self.entries@[n - 1].0);
                    }
                }
            }
            Some((self.entries[n - 1].0, copy_bytes(&self.entries[n - 1].1)))
        }
    }

    /// The entry with the greatest key that is at most `k`, if there is one.
    pub fn prev_key_value_back_from(&self, k: u32) -> (r: Option<(u32, Vec<u8>)>)
        requires
            self.wf(),
        ensures
            match r {
                Some((kk, v)) => {
                    &&& kk <= k
                    &&& self@.contains_key(kk)
                    &&& v@ == self@[kk]
                    &&& forall|j: u32| self@.contains_key(j) && j <= k ==> j <= kk
                },
                None => forall|j: u32| self@.contains_key(j) ==> j > k,
            },
    {
        let p = self.lower_bound(k);
        if p < self.entries.len() && self.entries[p].0 == k {
            proof {
                self.lemma_entry(p as int);
            }
            Some((k, copy_bytes(&self.entries[p].1)))
        } else if p == 0 {
            proof {
                assert forall|j: u32| self@.contains_key(j) implies j > k by {
                    let i = self.lemma_key(j);
                    if i > 0 && p < self.entries@.len() {
                        assert(self.entries@[0].0 < self.entries@[i].0);
                    }
                }
            }
            None
        } else {
            proof {
                self.lemma_entry(p - 1);
                assert forall|j: u32| self@.contains_key(j) && j <= k implies j <= self.entries@[p
                    - 1].0 by {
                    let i = self.lemma_key(j);
                    if i < p - 1 {
                        assert(self.entries@[i].0 < self.entries@[p - 1].0);
                    } else if i > p && p < self.entries@.len() {
                        assert(self.entries@[p as int].0 < self.entries@[i].0);
                    }
                }
            }
            Some((self.entries[p - 1].0, copy_bytes(&self.entries[p - 1].1)))
        }
    }

    /// The entries whose keys lie in the half-open range, in increasing key order.
    pub fn range(&self, from: u32, to: Option<u32>) -> (r: Vec<(u32, Vec<u8>)>)
        requires
            self.wf(),
        ensures
            is_ascending_range(r@, self@, from, to),
    {
        let mut r: Vec<(u32, Vec<u8>)> = Vec::new();
        let mut i: usize = 0;
        while i < self.entries.len()
            invariant
                self.wf(),
                i <= self.entries@.len(),
                forall|a: int, b: int| 0 <= a < b < r@.len() ==> #[trigger] r@[a].0 < #[trigger] r@[b].0,
                forall|a: int|
                    0 <= a < r@.len() ==> {
                        &&& in_range(#[trigger] r@[a].0, from, to)
                        &&& self@.contains_key(r@[a].0)
                        &&& r@[a].1@ == self@[r@[a].0]
                    },
                i < self.entries@.len() && r@.len() > 0 ==> r@.last().0 < self.entries@[i as int].0,
                forall|j: int|
                    0 <= j < i && in_range(#[trigger] self.entries@[j].0, from, to) ==> exists|a: int|
                        0 <= a < r@.len() && r@[a].0 == self.entries@[j].0,
            decreases self.entries@.len() - i,
        {
            let k = self.entries[i].0;
            let in_r = from <= k && match to {
                Some(t) => k < t,
                None => true,
            };
            let ghost old_r = r@;
            if in_r {
                proof {
                    self.lemma_entry(i as int);
                }
                r.push((k, copy_bytes(&self.entries[i].1)));
                proof {
                    assert forall|j: int|
                        0 <= j < i + 1 && in_range(#[trigger] self.entries@[j].0, from, to) implies exists|a: int|
                            0 <= a < r@.len() && r@[a].0 == self.entries@[j].0 by {
                        if j < i {
                            let a = choose|a: int| 0 <= a < old_r.len() && old_r[a].0 == self.entries@[j].0;
                            assert(r@[a] == old_r[a]);
                        } else {
                            assert(r@[old_r.len() as int].0 == self.entries@[j].0);
                        }
                    }
                }
            }
            proof {
                if i + 1 < self.entries@.len() {
                    assert(self.entries@[i as int].0 < self.entries@[i + 1].0);
                }
            }
            i += 1;
        }
        proof {
            assert forall|kk: u32|
                self@.contains_key(kk) && in_range(kk, from, to) implies exists|a: int|
                    0 <= a < r@.len() && #[trigger] r@[a].0 == kk by {
                let j = self.lemma_key(kk);
                assert(in_range(self.entries@[j].0, from, to));
            }
        }
        r
    }

    /// The entries whose keys lie in the half-open range, in decreasing key order.
    pub fn reverse_range(&self, from: u32, to: Option<u32>) -> (r: Vec<(u32, Vec<u8>)>)
        requires
            self.wf(),
        ensures
            is_descending_range(r@, self@, from, to),
    {
        let mut asc = self.range(from, to);
        let ghost orig = asc@;
        let n = asc.len();
        let mut r: Vec<(u32, Vec<u8>)> = Vec::new();
        while asc.len() > 0
            invariant
                n == orig.len(),
                asc@.len() + r@.len() == n,
                asc@ == orig.subrange(0, asc@.len() as int),
                forall|a: int| 0 <= a < r@.len() ==> #[trigger] r@[a] == orig[n - 1 - a],
            decreases asc@.len(),
        {
            let x = asc.pop().unwrap();
            r.push(x);
            proof {
                assert(asc@ =~= orig.subrange(0, asc@.len() as int));
            }
        }
        proof {
            assert forall|a: int, b: int| 0 <= a < b < r@.len() implies #[trigger] r@[a].0
                > #[trigger] r@[b].0 by {
                assert(r@[a] == orig[n - 1 - a]);
                assert(r@[b] == orig[n - 1 - b]);
                assert(orig[n - 1 - b].0 < orig[n - 1 - a].0);
            }
            assert forall|a: int| 0 <= a < r@.len() implies {
                &&& in_range(#[trigger] r@[a].0, from, to)
                &&& self@.contains_key(r@[a].0)
                &&& r@[a].1@ == self@[r@[a].0]
            } by {
                assert(r@[a] == orig[n - 1 - a]);
            }
            assert forall|kk: u32|
                self@.contains_key(kk) && in_range(kk, from, to) implies exists|a: int|
                    0 <= a < r@.len() && #[trigger] r@[a].0 == kk by {
                let b = choose|b: int| 0 <= b < orig.len() && #[trigger] orig[b].0 == kk;
                assert(r@[n - 1 - b] == orig[b]);
            }
        }
        r
    }
}

impl View for OrderedColumn {
    type V = Map<u32, Seq<u8>>;

    closed spec fn view(&self) -> Map<u32, Seq<u8>> {
        Map::new(
            |k: u32| exists|i: int| self.key_at(k, i),
            |k: u32| self.entries@[choose|i: int| self.key_at(k, i)].1@,
        )
    }
}

/// A column keyed by opaque bytes, each key stored once.
pub struct ByteColumn {
    entries: Vec<(Vec<u8>, Vec<u8>)>,
}

impl ByteColumn {
    /// The entry at `i` has key `k`.
    pub closed spec fn key_at(&self, k: Seq<u8>, i: int) -> bool {
        0 <= i < self.entries@.len() && self.entries@[i].0@ == k
    }

    /// No key is stored twice.
    pub closed spec fn wf(&self) -> bool {
        forall|i: int, j: int|
            0 <= i < self.entries@.len() && 0 <= j < self.entries@.len() && i != j
                ==> #[trigger] self.entries@[i].0@ != #[trigger] self.entries@[j].0@
    }

    proof fn lemma_entry(&self, i: int)
        requires
            self.wf(),
            0 <= i < self.entries@.len(),
        ensures
            self@.contains_key(self.entries@[i].0@),
            self@[self.entries@[i].0@] == self.entries@[i].1@,
    {
        let k = self.entries@[i].0@;
        assert(self.key_at(k, i));
        let j = choose|j: int| self.key_at(k, j);
        assert(j == i);
    }

    proof fn lemma_key(&self, k: Seq<u8>) -> (i: int)
        requires
            self.wf(),
            self@.contains_key(k),
        ensures
            0 <= i < self.entries@.len(),
            self.entries@[i].0@ == k,
            self@[k] == self.entries@[i].1@,
    {
        let i = choose|i: int| self.key_at(k, i);
        self.lemma_entry(i);
        i
    }

    /// An empty column.
    pub fn new() -> (r: Self)
        ensures
            r.wf(),
            r@ == Map::<Seq<u8>, Seq<u8>>::empty(),
    {
        let r = ByteColumn { entries: Vec::new() };
        assert(r@ =~= Map::<Seq<u8>, Seq<u8>>::empty());
        r
    }

    /// The position of the entry with key `k`.
    fn find(&self, k: &Vec<u8>) -> (r: Option<usize>)
        requires
            self.wf(),
        ensures
            match r {
                Some(i) => i < self.entries@.len() && self.entries@[i as int].0@ == k@,
                None => !self@.contains_key(k@),
            },
    {
        let mut i: usize = 0;
        while i < self.entries.len()
            invariant
                self.wf(),
                i <= self.entries@.len(),
                forall|j: int| 0 <= j < i ==> self.entries@[j].0@ != k@,
            decreases self.entries@.len() - i,
        {
            if bytes_equal(&self.entries[i].0, k) {
                return Some(i);
            }
            i += 1;
        }
        proof {
            if self@.contains_key(k@) {
                let j = self.lemma_key(k@);
            }
        }
        None
    }

    /// The value stored under `k`.
    pub fn get(&self, k: &Vec<u8>) -> (r: Option<Vec<u8>>)
        requires
            self.wf(),
        ensures
            match r {
                Some(v) => self@.contains_key(k@) && v@ == self@[k@],
                None => !self@.contains_key(k@),
            },
    {
        match self.find(k) {
            Some(i) => {
                proof {
                    self.lemma_entry(i as int);
                }
                Some(copy_bytes(&self.entries[i].1))
            },
            None => None,
        }
    }

    /// Whether a value is stored under `k`.
    pub fn contains(&self, k: &Vec<u8>) -> (r: bool)
        requires
            self.wf(),
        ensures
            r == self@.contains_key(k@),
    {
        match self.find(k) {
            Some(i) => {
                proof {
                    self.lemma_entry(i as int);
                }
                true
            },
            None => false,
        }
    }

    /// Stores `v` under `k`, replacing any value there.
    pub fn insert(&mut self, k: Vec<u8>, v: Vec<u8>)
        requires
            old(self).wf(),
        ensures
            final(self).wf(),
            final(self)@ == old(self)@.insert(k@, v@),
    {
        let ghost old_self = *self;
        let ghost kk0 = k@;
        let ghost vv = v@;
        match self.find(&k) {
            Some(p) => {
                self.entries.set(p, (k, v));
                proof {
                    assert forall|i: int, j: int|
                        0 <= i < self.entries@.len() && 0 <= j < self.entries@.len() && i != j
                            implies #[trigger] self.entries@[i].0@ != #[trigger] self.entries@[j].0@ by {
                        assert(old_self.entries@[i].0@ != old_self.entries@[j].0@);
                    }
                    assert forall|kk: Seq<u8>| #[trigger] self@.contains_key(kk) implies old_self@.insert(
                        kk0,
                        vv,
                    ).contains_key(kk) && self@[kk] == old_self@.insert(kk0, vv)[kk] by {
                        let i = self.lemma_key(kk);
                        if i != p {
                            old_self.lemma_entry(i);
                        }
                    }
                    assert forall|kk: Seq<u8>| #[trigger]
                        old_self@.insert(kk0, vv).contains_key(kk) implies self@.contains_key(kk) by {
                        if kk == kk0 {
                            self.lemma_entry(p as int);
                        } else {
                            let i = old_self.lemma_key(kk);
                            self.lemma_entry(i);
                        }
                    }
                    assert(self@ =~= old_self@.insert(kk0, vv));
                }
            },
            None => {
                self.entries.push((k, v));
                proof {
                    let n = old_self.entries@.len() as int;
                    assert forall|i: int, j: int|
                        0 <= i < self.entries@.len() && 0 <= j < self.entries@.len() && i != j
                            implies #[trigger] self.entries@[i].0@ != #[trigger] self.entries@[j].0@ by {
                        if i < n && j < n {
                            assert(old_self.entries@[i].0@ != old_self.entries@[j].0@);
                        } else if i < n {
                            old_self.lemma_entry(i);
                        } else if j < n {
                            old_self.lemma_entry(j);
                        }
                    }
                    assert forall|kk: Seq<u8>| #[trigger] self@.contains_key(kk) implies old_self@.insert(
                        kk0,
                        vv,
                    ).contains_key(kk) && self@[kk] == old_self@.insert(kk0, vv)[kk] by {
                        let i = self.lemma_key(kk);
                        if i < n {
                            old_self.lemma_entry(i);
                        }
                    }
                    assert forall|kk: Seq<u8>| #[trigger]
                        old_self@.insert(kk0, vv).contains_key(kk) implies self@.contains_key(kk) by {
                        if kk == kk0 {
                            self.lemma_entry(n);
                        } else {
                            let i = old_self.lemma_key(kk);
                            self.lemma_entry(i);
                        }
                    }
                    assert(self@ =~= old_self@.insert(kk0, vv));
                }
            },
        }
    }

    /// Removes the value stored under `k`, if any.
    pub fn delete(&mut self, k: &Vec<u8>)
        requires
            old(self).wf(),
        ensures
            final(self).wf(),
            final(self)@ == old(self)@.remove(k@),
    {
        let ghost old_self = *self;
        match self.find(k) {
            Some(p) => {
                self.entries.remove(p);
                proof {
                    assert forall|i: int, j: int|
                        0 <= i < self.entries@.len() && 0 <= j < self.entries@.len() && i != j
                            implies #[trigger] self.entries@[i].0@ != #[trigger] self.entries@[j].0@ by {
                        let a = if i < p { i } else { i + 1 };
                        let b = if j < p { j } else { j + 1 };
                        assert(old_self.entries@[a].0@ != old_self.entries@[b].0@);
                    }
                    assert forall|kk: Seq<u8>| #[trigger] self@.contains_key(kk) implies old_self@.remove(
                        k@,
                    ).contains_key(kk) && self@[kk] == old_self@.remove(k@)[kk] by {
                        let i = self.lemma_key(kk);
                        let a = if i < p { i } else { i + 1 };
                        old_self.lemma_entry(a);
                        assert(old_self.entries@[a].0@ != old_self.entries@[p as int].0@);
                    }
                    assert forall|kk: Seq<u8>| #[trigger]
                        old_self@.remove(k@).contains_key(kk) implies self@.contains_key(kk) by {
                        let i = old_self.lemma_key(kk);
                        if i < p {
                            self.lemma_entry(i);
                        } else {
                            self.lemma_entry(i - 1);
                        }
                    }
                    assert(self@ =~= old_self@.remove(k@));
                }
            },
            None => {
                assert(self@ =~= old_self@.remove(k@));
            },
        }
    }

    /// Every entry of the column, in no particular order, each key once.
    pub fn items_unordered(&self) -> (r: Vec<(Vec<u8>, Vec<u8>)>)
        requires
            self.wf(),
        ensures
            forall|i: int, j: int|
                0 <= i < r@.len() && 0 <= j < r@.len() && i != j ==> #[trigger] r@[i].0@
                    != #[trigger] r@[j].0@,
            forall|i: int|
                0 <= i < r@.len() ==> self@.contains_key(#[trigger] r@[i].0@) && r@[i].1@
                    == self@[r@[i].0@],
            forall|k: Seq<u8>|
                self@.contains_key(k) ==> exists|i: int| 0 <= i < r@.len() && #[trigger] r@[i].0@ == k,
    {
        let mut r: Vec<(Vec<u8>, Vec<u8>)> = Vec::new();
        let mut i: usize = 0;
        while i < self.entries.len()
            invariant
                self.wf(),
                i <= self.entries@.len(),
                r@.len() == i,
                forall|j: int|
                    0 <= j < i ==> #[trigger] r@[j].0@ == self.entries@[j].0@ && r@[j].1@
                        == self.entries@[j].1@,
            decreases self.entries@.len() - i,
        {
            r.push((copy_bytes(&self.entries[i].0), copy_bytes(&self.entries[i].1)));
            i += 1;
        }
        proof {
            assert forall|a: int, b: int|
                0 <= a < r@.len() && 0 <= b < r@.len() && a != b implies #[trigger] r@[a].0@
                    != #[trigger] r@[b].0@ by {
                assert(self.entries@[a].0@ != self.entries@[b].0@);
            }
            assert forall|a: int| 0 <= a < r@.len() implies self@.contains_key(#[trigger] r@[a].0@)
                && r@[a].1@ == self@[r@[a].0@] by {
                self.lemma_entry(a);
            }
            assert forall|k: Seq<u8>| self@.contains_key(k) implies exists|a: int|
                0 <= a < r@.len() && #[trigger] r@[a].0@ == k by {
                let a = self.lemma_key(k);
                assert(r@[a].0@ == k);
            }
        }
        r
    }
}

impl View for ByteColumn {
    type V = Map<Seq<u8>, Seq<u8>>;

    closed spec fn view(&self) -> Map<Seq<u8>, Seq<u8>> {
        Map::new(
            |k: Seq<u8>| exists|i: int| self.key_at(k, i),
            |k: Seq<u8>| self.entries@[choose|i: int| self.key_at(k, i)].1@,
        )
    }
}

} // verus!
