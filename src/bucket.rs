use vstd::prelude::*;

use crate::metric::copy_prefix;

verus! {

/// Whether two byte sequences are equal.
pub(crate) fn bytes_eq(a: &[u8], b: &[u8]) -> (r: bool)
    ensures
        r == (a@ == b@),
{
    if a.len() != b.len() {
        return false;
    }
    let mut i: usize = 0;
    while i < a.len()
        invariant
            i <= a@.len() == b@.len(),
            a@.subrange(0, i as int) == b@.subrange(0, i as int),
        decreases a.len() - i,
    {
        if a[i] != b[i] {
            assert(a@[i as int] != b@[i as int]);
            return false;
        }
        assert(a@.subrange(0, i + 1) =~= a@.subrange(0, i as int).push(a@[i as int]));
        assert(b@.subrange(0, i + 1) =~= b@.subrange(0, i as int).push(b@[i as int]));
        i = i + 1;
    }
    assert(a@ =~= a@.subrange(0, i as int));
    assert(b@ =~= b@.subrange(0, i as int));
    true
}

/// Index of `key` among `keys`, if it is there.
fn find_key(keys: &Vec<Vec<u8>>, key: &[u8]) -> (r: Option<usize>)
    ensures
        match r {
            Some(i) => i < keys@.len() && keys@[i as int]@ == key@,
            None => forall|i: int| 0 <= i < keys@.len() ==> (#[trigger] keys@[i])@ != key@,
        },
{
    let mut i: usize = 0;
    while i < keys.len()
        invariant
            i <= keys@.len(),
            forall|j: int| 0 <= j < i ==> (#[trigger] keys@[j])@ != key@,
        decreases keys.len() - i,
    {
        if bytes_eq(keys[i].as_slice(), key) {
            return Some(i);
        }
        i = i + 1;
    }
    None
}

/// No two positions hold the same key.
pub open spec fn keys_unique(keys: Seq<Vec<u8>>) -> bool {
    forall|i: int, j: int|
        0 <= i < keys.len() && 0 <= j < keys.len() && (#[trigger] keys[i])@ == (#[trigger] keys[j])@
            ==> i == j
}

/// Adding a key that is not yet there keeps the keys unique.
proof fn lemma_keys_push(keys: Seq<Vec<u8>>, k: Vec<u8>)
    requires
        keys_unique(keys),
        forall|i: int| 0 <= i < keys.len() ==> (#[trigger] keys[i])@ != k@,
    ensures
        keys_unique(keys.push(k)),
{
    let ks = keys.push(k);
    assert forall|a: int, b: int|
        0 <= a < ks.len() && 0 <= b < ks.len() && (#[trigger] ks[a])@ == (#[trigger] ks[b])@ implies a
        == b by {
        if a < keys.len() {
            assert(ks[a] == keys[a]);
        }
        if b < keys.len() {
            assert(ks[b] == keys[b]);
        }
    }
}

/// The value that `appended` stores for `k`.
pub open spec fn pushed<T>(m: Map<Seq<u8>, Seq<T>>, k: Seq<u8>, x: T) -> Seq<T> {
    if m.contains_key(k) {
        m[k].push(x)
    } else {
        seq![x]
    }
}

/// `m` with `x` appended to the sequence under `k`, which starts empty.
pub open spec fn appended<T>(m: Map<Seq<u8>, Seq<T>>, k: Seq<u8>, x: T) -> Map<Seq<u8>, Seq<T>> {
    m.insert(k, pushed(m, k, x))
}

/// A map from names to sequences of samples, in arrival order.
pub struct SeqBucket<T> {
    keys: Vec<Vec<u8>>,
    vals: Vec<Vec<T>>,
    model: Ghost<Map<Seq<u8>, Seq<T>>>,
}

impl<T: Copy> View for SeqBucket<T> {
    type V = Map<Seq<u8>, Seq<T>>;

    closed spec fn view(&self) -> Map<Seq<u8>, Seq<T>> {
        self.model@
    }
}

impl<T: Copy> SeqBucket<T> {
    /// Keys are unique and the lists agree with the map.
    pub closed spec fn wf(&self) -> bool {
        &&& self.keys@.len() == self.vals@.len()
        &&& keys_unique(self.keys@)
        &&& forall|i: int|
            0 <= i < self.keys@.len() ==> self.model@.contains_key((#[trigger] self.keys@[i])@)
                && self.model@[self.keys@[i]@] == self.vals@[i]@
        &&& forall|k: Seq<u8>|
            #[trigger] self.model@.contains_key(k) ==> exists|i: int|
                0 <= i < self.keys@.len() && (#[trigger] self.keys@[i])@ == k
    }

    /// The key at position `i` of the walk order.
    pub closed spec fn key_of(&self, i: int) -> Seq<u8> {
        self.keys@[i]@
    }

    pub fn new() -> (r: Self)
        ensures
            r.wf(),
            r@ == Map::<Seq<u8>, Seq<T>>::empty(),
    {
        SeqBucket { keys: Vec::new(), vals: Vec::new(), model: Ghost(Map::empty()) }
    }

    /// Appends `x` to the sequence under `key`.
    pub fn append(&mut self, key: &[u8], x: T)
        requires
            old(self).wf(),
        ensures
            final(self).wf(),
            final(self)@ == appended(old(self)@, key@, x),
    {
        match find_key(&self.keys, key) {
            Some(i) => {
                self.vals[i].push(x);
                self.model = Ghost(appended(self.model@, key@, x));
                assert forall|j: int| 0 <= j < self.keys@.len() implies self.model@.contains_key(
                    (#[trigger] self.keys@[j])@,
                ) && self.model@[self.keys@[j]@] == self.vals@[j]@ by {
                    if j != i {
                        assert(old(self).keys@[j]@ != old(self).keys@[i as int]@);
                    }
                }
                assert forall|k: Seq<u8>| #[trigger] self.model@.contains_key(k) implies exists|
                    j: int,
                | 0 <= j < self.keys@.len() && (#[trigger] self.keys@[j])@ == k by {
                    if k == key@ {
                        assert(self.keys@[i as int]@ == k);
                    } else {
                        assert(old(self).model@.contains_key(k));
                        let j = choose|j: int|
                            0 <= j < old(self).keys@.len() && (#[trigger] old(self).keys@[j])@ == k;
                        assert(self.keys@[j] == old(self).keys@[j]);
                    }
                }
            },
            None => {
                let k = copy_prefix(key, key.len());
                assert(k@ =~= key@);
                self.keys.push(k);
                let mut v: Vec<T> = Vec::new();
                v.push(x);
                self.vals.push(v);
                assert(!old(self).model@.contains_key(key@));
                self.model = Ghost(appended(self.model@, key@, x));
                assert(self.vals@.last()@ =~= seq![x]);
                let n = self.keys.len() - 1;
                proof {
                    lemma_keys_push(old(self).keys@, k);
                }
                assert forall|j: int| 0 <= j < self.keys@.len() implies self.model@.contains_key(
                    (#[trigger] self.keys@[j])@,
                ) && self.model@[self.keys@[j]@] == self.vals@[j]@ by {
                    if j < n {
                        assert(old(self).keys@[j] == self.keys@[j]);
                        assert(old(self).keys@[j]@ != key@);
                    }
                }
                assert forall|k: Seq<u8>| #[trigger] self.model@.contains_key(k) implies exists|
                    j: int,
                | 0 <= j < self.keys@.len() && (#[trigger] self.keys@[j])@ == k by {
                    if k == key@ {
                        assert(self.keys@[n as int]@ == k);
                    } else {
                        assert(old(self).model@.contains_key(k));
                        let j = choose|j: int|
                            0 <= j < old(self).keys@.len() && (#[trigger] old(self).keys@[j])@ == k;
                        assert(self.keys@[j] == old(self).keys@[j]);
                    }
                }
            },
        }
    }

    /// Removes every key.
    pub fn clear(&mut self)
        ensures
            final(self).wf(),
            final(self)@ == Map::<Seq<u8>, Seq<T>>::empty(),
    {
        self.keys = Vec::new();
        self.vals = Vec::new();
        self.model = Ghost(Map::empty());
    }

    /// The sequence under `key`, if there is one.
    pub fn get(&self, key: &[u8]) -> (r: Option<&Vec<T>>)
        requires
            self.wf(),
        ensures
            match r {
                Some(v) => self@.contains_key(key@) && self@[key@] == v@,
                None => !self@.contains_key(key@),
            },
    {
        match find_key(&self.keys, key) {
            Some(i) => Some(&self.vals[i]),
            None => None,
        }
    }

    /// The number of keys.
    pub fn len(&self) -> (r: usize)
        requires
            self.wf(),
        ensures
            r == self@.dom().len(),
    {
        proof {
            self.lemma_dom_len();
        }
        self.keys.len()
    }

    /// The key at position `i`, for walking all entries.
    pub fn key_at(&self, i: usize) -> (r: &Vec<u8>)
        requires
            self.wf(),
            i < self@.dom().len(),
        ensures
            r@ == self.key_of(i as int),
            self@.contains_key(r@),
            forall|j: int| 0 <= j < self@.dom().len() && j != i ==> self.key_of(j) != r@,
    {
        proof {
            self.lemma_dom_len();
        }
        &self.keys[i]
    }

    /// The sequence at position `i`, for walking all entries.
    pub fn values_at(&self, i: usize) -> (r: &Vec<T>)
        requires
            self.wf(),
            i < self@.dom().len(),
        ensures
            self@.contains_key(self.key_of(i as int)),
            r@ == self@[self.key_of(i as int)],
    {
        proof {
            self.lemma_dom_len();
        }
        assert(self@.contains_key(self.keys@[i as int]@));
        &self.vals[i]
    }

    proof fn lemma_dom_len(&self)
        requires
            self.wf(),
        ensures
            self@.dom().len() == self.keys@.len(),
    {
        let ks = Seq::new(self.keys@.len(), |i: int| self.keys@[i]@);
        assert forall|i: int, j: int| 0 <= i < j < ks.len() implies ks[i] != ks[j] by {
            assert(self.keys@[i]@ == ks[i] && self.keys@[j]@ == ks[j]);
        }
        ks.unique_seq_to_set();
        assert(ks.to_set() =~= self@.dom()) by {
            assert forall|k: Seq<u8>| self@.dom().contains(k) implies ks.to_set().contains(k) by {
                let i = choose|i: int| 0 <= i < self.keys@.len() && (#[trigger] self.keys@[i])@ == k;
                assert(ks[i] == k);
            }
        }
    }
}

/// A map from names to one value each, the last one set.
pub struct ValueBucket<T> {
    keys: Vec<Vec<u8>>,
    vals: Vec<T>,
    model: Ghost<Map<Seq<u8>, T>>,
}

impl<T: Copy> View for ValueBucket<T> {
    type V = Map<Seq<u8>, T>;

    closed spec fn view(&self) -> Map<Seq<u8>, T> {
        self.model@
    }
}

impl<T: Copy> ValueBucket<T> {
    /// Keys are unique and the lists agree with the map.
    pub closed spec fn wf(&self) -> bool {
        &&& self.keys@.len() == self.vals@.len()
        &&& keys_unique(self.keys@)
        &&& forall|i: int|
            0 <= i < self.keys@.len() ==> self.model@.contains_key((#[trigger] self.keys@[i])@)
                && self.model@[self.keys@[i]@] == self.vals@[i]
        &&& forall|k: Seq<u8>|
            #[trigger] self.model@.contains_key(k) ==> exists|i: int|
                0 <= i < self.keys@.len() && (#[trigger] self.keys@[i])@ == k
    }

    /// The key at position `i` of the walk order.
    pub closed spec fn key_of(&self, i: int) -> Seq<u8> {
        self.keys@[i]@
    }

    pub fn new() -> (r: Self)
        ensures
            r.wf(),
            r@ == Map::<Seq<u8>, T>::empty(),
    {
        ValueBucket { keys: Vec::new(), vals: Vec::new(), model: Ghost(Map::empty()) }
    }

    /// Sets the value under `key` to `x`, replacing any earlier one.
    pub fn set(&mut self, key: &[u8], x: T)
        requires
            old(self).wf(),
        ensures
            final(self).wf(),
            final(self)@ == old(self)@.insert(key@, x),
    {
        match find_key(&self.keys, key) {
            Some(i) => {
                self.vals.set(i, x);
                self.model = Ghost(self.model@.insert(key@, x));
                assert forall|j: int| 0 <= j < self.keys@.len() implies self.model@.contains_key(
                    (#[trigger] self.keys@[j])@,
                ) && self.model@[self.keys@[j]@] == self.vals@[j] by {
                    if j != i {
                        assert(old(self).keys@[j]@ != old(self).keys@[i as int]@);
                    }
                }
                assert forall|k: Seq<u8>| #[trigger] self.model@.contains_key(k) implies exists|
                    j: int,
                | 0 <= j < self.keys@.len() && (#[trigger] self.keys@[j])@ == k by {
                    if k == key@ {
                        assert(self.keys@[i as int]@ == k);
                    } else {
                        assert(old(self).model@.contains_key(k));
                        let j = choose|j: int|
                            0 <= j < old(self).keys@.len() && (#[trigger] old(self).keys@[j])@ == k;
                        assert(self.keys@[j] == old(self).keys@[j]);
                    }
                }
            },
            None => {
                let k = copy_prefix(key, key.len());
                assert(k@ =~= key@);
                self.keys.push(k);
                self.vals.push(x);
                assert(!old(self).model@.contains_key(key@));
                self.model = Ghost(self.model@.insert(key@, x));
                let n = self.keys.len() - 1;
                proof {
                    lemma_keys_push(old(self).keys@, k);
                }
                assert forall|j: int| 0 <= j < self.keys@.len() implies self.model@.contains_key(
                    (#[trigger] self.keys@[j])@,
                ) && self.model@[self.keys@[j]@] == self.vals@[j] by {
                    if j < n {
                        assert(old(self).keys@[j] == self.keys@[j]);
                        assert(old(self).keys@[j]@ != key@);
                    }
                }
                assert forall|k: Seq<u8>| #[trigger] self.model@.contains_key(k) implies exists|
                    j: int,
                | 0 <= j < self.keys@.len() && (#[trigger] self.keys@[j])@ == k by {
                    if k == key@ {
                        assert(self.keys@[n as int]@ == k);
                    } else {
                        assert(old(self).model@.contains_key(k));
                        let j = choose|j: int|
                            0 <= j < old(self).keys@.len() && (#[trigger] old(self).keys@[j])@ == k;
                        assert(self.keys@[j] == old(self).keys@[j]);
                    }
                }
            },
        }
    }

    /// Removes every key.
    pub fn clear(&mut self)
        ensures
            final(self).wf(),
            final(self)@ == Map::<Seq<u8>, T>::empty(),
    {
        self.keys = Vec::new();
        self.vals = Vec::new();
        self.model = Ghost(Map::empty());
    }

    /// The value under `key`, if there is one.
    pub fn get(&self, key: &[u8]) -> (r: Option<T>)
        requires
            self.wf(),
        ensures
            match r {
                Some(v) => self@.contains_key(key@) && self@[key@] == v,
                None => !self@.contains_key(key@),
            },
    {
        match find_key(&self.keys, key) {
            Some(i) => Some(self.vals[i]),
            None => None,
        }
    }

    /// The number of keys.
    pub fn len(&self) -> (r: usize)
        requires
            self.wf(),
        ensures
            r == self@.dom().len(),
    {
        proof {
            self.lemma_dom_len();
        }
        self.keys.len()
    }

    /// The key at position `i`, for walking all entries.
    pub fn key_at(&self, i: usize) -> (r: &Vec<u8>)
        requires
            self.wf(),
            i < self@.dom().len(),
        ensures
            r@ == self.key_of(i as int),
            self@.contains_key(r@),
            forall|j: int| 0 <= j < self@.dom().len() && j != i ==> self.key_of(j) != r@,
    {
        proof {
            self.lemma_dom_len();
        }
        &self.keys[i]
    }

    /// The value at position `i`, for walking all entries.
    pub fn value_at(&self, i: usize) -> (r: T)
        requires
            self.wf(),
            i < self@.dom().len(),
        ensures
            self@.contains_key(self.key_of(i as int)),
            r == self@[self.key_of(i as int)],
    {
        proof {
            self.lemma_dom_len();
        }
        assert(self@.contains_key(self.keys@[i as int]@));
        self.vals[i]
    }

    proof fn lemma_dom_len(&self)
        requires
            self.wf(),
        ensures
            self@.dom().len() == self.keys@.len(),
    {
        let ks = Seq::new(self.keys@.len(), |i: int| self.keys@[i]@);
        assert forall|i: int, j: int| 0 <= i < j < ks.len() implies ks[i] != ks[j] by {
            assert(self.keys@[i]@ == ks[i] && self.keys@[j]@ == ks[j]);
        }
        ks.unique_seq_to_set();
        assert(ks.to_set() =~= self@.dom()) by {
            assert forall|k: Seq<u8>| self@.dom().contains(k) implies ks.to_set().contains(k) by {
                let i = choose|i: int| 0 <= i < self.keys@.len() && (#[trigger] self.keys@[i])@ == k;
                assert(ks[i] == k);
            }
        }
    }
}

} // verus!
