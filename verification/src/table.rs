//! A finite map kept as a list of entries with distinct keys: the in-memory
//! picture of a keyed storage map.

use vstd::prelude::*;
use vstd::utf8::{encode_utf8, encode_utf8_decode_utf8};

verus! {

/// A key that can be compared at run time by its view.
pub trait TableKey: Sized + View {
    fn same_key(&self, other: &Self) -> (r: bool)
        ensures
            r == (self@ == other@),
    ;

    fn copy_key(&self) -> (r: Self)
        ensures
            r@ == self@,
    ;
}

impl TableKey for String {
    fn same_key(&self, other: &Self) -> (r: bool) {
        *self == *other
    }

    fn copy_key(&self) -> (r: Self) {
        self.clone()
    }
}

impl TableKey for (String, String) {
    fn same_key(&self, other: &Self) -> (r: bool) {
        self.0 == other.0 && self.1 == other.1
    }

    fn copy_key(&self) -> (r: Self) {
        (self.0.clone(), self.1.clone())
    }
}

/// Entries of a map, no key twice.
pub struct Table<K, V> {
    pub entries: Vec<(K, V)>,
}

impl<K: View, V> Table<K, V> {
    /// No key occurs twice.
    pub open spec fn wf(&self) -> bool {
        forall|i: int, j: int|
            0 <= i < self.entries@.len() && 0 <= j < self.entries@.len() && i != j
                ==> #[trigger] self.entries@[i].0@ != #[trigger] self.entries@[j].0@
    }

    pub open spec fn has_key_at(&self, k: K::V, i: int) -> bool {
        0 <= i < self.entries@.len() && self.entries@[i].0@ == k
    }

    pub open spec fn contains(&self, k: K::V) -> bool {
        exists|i: int| #[trigger] self.has_key_at(k, i)
    }

    /// The map that the entries stand for.
    pub open spec fn map(&self) -> Map<K::V, V> {
        Map::new(
            |k: K::V| self.contains(k),
            |k: K::V| self.entries@[choose|i: int| #[trigger] self.has_key_at(k, i)].1,
        )
    }
}

impl<K: View, V> View for Table<K, V> {
    type V = Map<K::V, V>;

    open spec fn view(&self) -> Map<K::V, V> {
        self.map()
    }
}

impl<K: TableKey, V> Table<K, V> {
    pub fn new() -> (t: Self)
        ensures
            t.wf(),
            t@ == Map::<K::V, V>::empty(),
            t.entries@.len() == 0,
    {
        let t = Table { entries: Vec::new() };
        assert(t@ =~= Map::<K::V, V>::empty());
        t
    }

    pub proof fn lemma_value_at(&self, k: K::V, i: int)
        requires
            self.wf(),
            self.has_key_at(k, i),
        ensures
            self@.contains_key(k),
            self@[k] == self.entries@[i].1,
    {
        let j = choose|j: int| #[trigger] self.has_key_at(k, j);
        assert(self.has_key_at(k, j));
        assert(self.entries@[i].0@ == self.entries@[j].0@);
    }

    fn find(&self, key: &K) -> (r: Option<usize>)
        requires
            self.wf(),
        ensures
            match r {
                Some(i) => self.has_key_at(key@, i as int),
                None => !self@.contains_key(key@),
            },
    {
        let mut i: usize = 0;
        while i < self.entries.len()
            invariant
                i <= self.entries@.len(),
                forall|j: int| 0 <= j < i ==> self.entries@[j].0@ != key@,
            decreases self.entries@.len() - i,
        {
            if self.entries[i].0.same_key(key) {
                return Some(i);
            }
            i = i + 1;
        }
        assert(!self.contains(key@));
        None
    }

    pub fn get(&self, key: &K) -> (r: Option<&V>)
        requires
            self.wf(),
        ensures
            match r {
                Some(v) => self@.contains_key(key@) && *v == self@[key@],
                None => !self@.contains_key(key@),
            },
    {
        match self.find(key) {
            Some(i) => {
                proof {
                    self.lemma_value_at(key@, i as int);
                }
                Some(&self.entries[i].1)
            },
            None => None,
        }
    }

    pub fn contains_key(&self, key: &K) -> (r: bool)
        requires
            self.wf(),
        ensures
            r == self@.contains_key(key@),
    {
        match self.find(key) {
            Some(i) => {
                proof {
                    self.lemma_value_at(key@, i as int);
                }
                true
            },
            None => false,
        }
    }

    pub fn insert(&mut self, key: K, value: V)
        requires
            old(self).wf(),
        ensures
            final(self).wf(),
            final(self)@ == old(self)@.insert(key@, value),
            !old(self)@.contains_key(key@) ==> final(self).entries@ == old(self).entries@.push(
                (key, value),
            ),
            old(self)@.contains_key(key@) ==> final(self).entries@.len() == old(self).entries@.len()
                && forall|j: int|
                0 <= j < old(self).entries@.len() ==> #[trigger] final(self).entries@[j].0@ == old(
                    self,
                ).entries@[j].0@,
    {
        let ghost k = key@;
        match self.find(&key) {
            Some(i) => {
                let ghost before = *self;
                self.entries.set(i, (key, value));
                proof {
                    assert forall|kk: K::V| #[trigger] self.contains(kk) <==> before.contains(kk)
                        || kk == k by {
                        if before.contains(kk) {
                            let j = choose|j: int| #[trigger] before.has_key_at(kk, j);
                            assert(self.has_key_at(kk, j));
                        }
                        if self.contains(kk) {
                            let j = choose|j: int| #[trigger] self.has_key_at(kk, j);
                            if j != i {
                                assert(before.has_key_at(kk, j));
                            }
                        }
                        if kk == k {
                            assert(self.has_key_at(kk, i as int));
                        }
                    }
                    assert forall|kk: K::V| #[trigger] self.contains(kk) implies self@[kk] == (
                    if kk == k {
                        value
                    } else {
                        before@[kk]
                    }) by {
                        let j = choose|j: int| #[trigger] self.has_key_at(kk, j);
                        self.lemma_value_at(kk, j);
                        if kk != k {
                            assert(before.has_key_at(kk, j));
                            before.lemma_value_at(kk, j);
                        } else {
                            assert(self.entries@[i as int].0@ == self.entries@[j].0@);
                        }
                    }
                    assert(self@ =~= before@.insert(k, value));
                }
            },
            None => {
                let ghost before = *self;
                self.entries.push((key, value));
                proof {
                    let n = before.entries@.len() as int;
                    assert forall|a: int, b: int|
                        0 <= a < self.entries@.len() && 0 <= b < self.entries@.len() && a != b
                            implies #[trigger] self.entries@[a].0@ != #[trigger] self.entries@[b].0@ by {
                        if a == n {
                            assert(!before.has_key_at(k, b));
                        } else if b == n {
                            assert(!before.has_key_at(k, a));
                        }
                    }
                    assert forall|kk: K::V| #[trigger] self.contains(kk) <==> before.contains(kk)
                        || kk == k by {
                        if before.contains(kk) {
                            let j = choose|j: int| #[trigger] before.has_key_at(kk, j);
                            assert(self.has_key_at(kk, j));
                        }
                        if self.contains(kk) {
                            let j = choose|j: int| #[trigger] self.has_key_at(kk, j);
                            if j != n {
                                assert(before.has_key_at(kk, j));
                            }
                        }
                        if kk == k {
                            assert(self.has_key_at(kk, n));
                        }
                    }
                    assert forall|kk: K::V| #[trigger] self.contains(kk) implies self@[kk] == (
                    if kk == k {
                        value
                    } else {
                        before@[kk]
                    }) by {
                        let j = choose|j: int| #[trigger] self.has_key_at(kk, j);
                        self.lemma_value_at(kk, j);
                        if kk != k {
                            assert(before.has_key_at(kk, j));
                            before.lemma_value_at(kk, j);
                        } else {
                            assert(self.has_key_at(kk, n));
                        }
                    }
                    assert(self@ =~= before@.insert(k, value));
                }
            },
        }
    }

    pub fn remove(&mut self, key: &K)
        requires
            old(self).wf(),
        ensures
            final(self).wf(),
            final(self)@ == old(self)@.remove(key@),
    {
        let ghost k = key@;
        match self.find(key) {
            None => {
                assert(self@ =~= self@.remove(k));
            },
            Some(i) => {
                let ghost before = *self;
                self.entries.remove(i);
                proof {
                    assert forall|a: int, b: int|
                        0 <= a < self.entries@.len() && 0 <= b < self.entries@.len() && a != b
                            implies #[trigger] self.entries@[a].0@ != #[trigger] self.entries@[b].0@ by {
                        let a0 = if a < i { a } else { a + 1 };
                        let b0 = if b < i { b } else { b + 1 };
                        assert(self.entries@[a] == before.entries@[a0]);
                        assert(self.entries@[b] == before.entries@[b0]);
                    }
                    assert forall|kk: K::V| #[trigger] self.contains(kk) <==> before.contains(kk)
                        && kk != k by {
                        if self.contains(kk) {
                            let j = choose|j: int| #[trigger] self.has_key_at(kk, j);
                            let j0 = if j < i { j } else { j + 1 };
                            assert(self.entries@[j] == before.entries@[j0]);
                            assert(before.has_key_at(kk, j0));
                            assert(before.entries@[j0].0@ != before.entries@[i as int].0@);
                        }
                        if before.contains(kk) && kk != k {
                            let j = choose|j: int| #[trigger] before.has_key_at(kk, j);
                            assert(j != i);
                            let j1 = if j < i { j } else { j - 1 };
                            assert(self.entries@[j1] == before.entries@[j]);
                            assert(self.has_key_at(kk, j1));
                        }
                    }
                    assert forall|kk: K::V| #[trigger] self.contains(kk) implies self@[kk] == before@[kk] by {
                        let j = choose|j: int| #[trigger] self.has_key_at(kk, j);
                        self.lemma_value_at(kk, j);
                        let j0 = if j < i { j } else { j + 1 };
                        assert(self.entries@[j] == before.entries@[j0]);
                        assert(before.has_key_at(kk, j0));
                        before.lemma_value_at(kk, j0);
                    }
                    assert(self@ =~= before@.remove(k));
                }
            },
        }
    }
}

impl<K: TableKey, V: Copy> Table<K, V> {
    /// A copy of the table, entry by entry.
    pub fn duplicate(&self) -> (r: Self)
        requires
            self.wf(),
        ensures
            r.wf(),
            r@ == self@,
            r.entries@.len() == self.entries@.len(),
            forall|j: int|
                0 <= j < self.entries@.len() ==> #[trigger] r.entries@[j].0@ == self.entries@[j].0@
                    && r.entries@[j].1 == self.entries@[j].1,
    {
        let mut entries: Vec<(K, V)> = Vec::new();
        let mut i: usize = 0;
        while i < self.entries.len()
            invariant
                i <= self.entries@.len(),
                entries@.len() == i,
                forall|j: int|
                    0 <= j < i ==> #[trigger] entries@[j].0@ == self.entries@[j].0@ && entries@[j].1
                        == self.entries@[j].1,
            decreases self.entries@.len() - i,
        {
            let key = self.entries[i].0.copy_key();
            let value = self.entries[i].1;
            entries.push((key, value));
            i = i + 1;
        }
        let r = Table { entries };
        proof {
            assert forall|a: int, b: int|
                0 <= a < r.entries@.len() && 0 <= b < r.entries@.len() && a != b
                    implies #[trigger] r.entries@[a].0@ != #[trigger] r.entries@[b].0@ by {
                assert(r.entries@[a].0@ == self.entries@[a].0@);
                assert(r.entries@[b].0@ == self.entries@[b].0@);
            }
            assert forall|k: K::V| #[trigger] r.contains(k) <==> self.contains(k) by {
                if r.contains(k) {
                    let j = choose|j: int| #[trigger] r.has_key_at(k, j);
                    assert(r.entries@[j].0@ == self.entries@[j].0@);
                    assert(self.has_key_at(k, j));
                }
                if self.contains(k) {
                    let j = choose|j: int| #[trigger] self.has_key_at(k, j);
                    assert(r.entries@[j].0@ == self.entries@[j].0@);
                    assert(r.has_key_at(k, j));
                }
            }
            assert forall|k: K::V| #[trigger] r.contains(k) implies r@[k] == self@[k] by {
                let j = choose|j: int| #[trigger] r.has_key_at(k, j);
                assert(r.entries@[j].0@ == self.entries@[j].0@);
                r.lemma_value_at(k, j);
                assert(self.has_key_at(k, j));
                self.lemma_value_at(k, j);
            }
            assert(r@ =~= self@);
        }
        r
    }
}

/// `a` and `b` first differ at `k`, and there `a` is the smaller: it ends
/// first, or its byte is lower.
pub open spec fn diverges_at(a: Seq<u8>, b: Seq<u8>, k: int) -> bool {
    &&& 0 <= k <= a.len()
    &&& k <= b.len()
    &&& forall|j: int| 0 <= j < k ==> a[j] == b[j]
    &&& ((k == a.len() && k < b.len()) || (k < a.len() && k < b.len() && a[k] < b[k]))
}

/// `a` comes before `b` in byte order.
pub open spec fn bytes_lt(a: Seq<u8>, b: Seq<u8>) -> bool {
    exists|k: int| #[trigger] diverges_at(a, b, k)
}

/// The keys of the entries rise strictly in the byte order of their UTF-8
/// encoding, the order in which storage lists them.
pub open spec fn keys_ascending<V>(entries: Seq<(String, V)>) -> bool {
    forall|i: int|
        0 <= i < entries.len() - 1 ==> bytes_lt(
            encode_utf8(#[trigger] entries[i].0@),
            encode_utf8(entries[i + 1].0@),
        )
}

/// Whether `a` comes before `b` in byte order.
pub fn bytes_less(a: &[u8], b: &[u8]) -> (r: bool)
    ensures
        r == bytes_lt(a@, b@),
{
    let mut i: usize = 0;
    while i < a.len() && i < b.len() && a[i] == b[i]
        invariant
            i <= a@.len(),
            i <= b@.len(),
            forall|j: int| 0 <= j < i ==> a@[j] == b@[j],
        decreases a@.len() - i,
    {
        i = i + 1;
    }
    let r = if i == a.len() {
        i < b.len()
    } else if i == b.len() {
        false
    } else {
        a[i] < b[i]
    };
    proof {
        if r {
            assert(diverges_at(a@, b@, i as int));
        } else {
            assert forall|k: int| !#[trigger] diverges_at(a@, b@, k) by {
                if diverges_at(a@, b@, k) {
                    if k < i {
                        assert(a@[k] == b@[k]);
                    } else if k > i {
                        assert(a@[i as int] == b@[i as int]);
                    }
                }
            }
        }
    }
    r
}

proof fn lemma_first_difference(a: Seq<u8>, b: Seq<u8>, i: int)
    requires
        a != b,
        0 <= i <= a.len(),
        i <= b.len(),
        forall|j: int| 0 <= j < i ==> a[j] == b[j],
    ensures
        bytes_lt(a, b) || bytes_lt(b, a),
    decreases a.len() - i,
{
    if i == a.len() {
        if i < b.len() {
            assert(diverges_at(a, b, i));
        } else {
            assert(a =~= b);
        }
    } else if i == b.len() {
        assert(diverges_at(b, a, i));
    } else if a[i] < b[i] {
        assert(diverges_at(a, b, i));
    } else if b[i] < a[i] {
        assert(diverges_at(b, a, i));
    } else {
        lemma_first_difference(a, b, i + 1);
    }
}

/// Byte order is total: of two different byte strings one comes first.
pub proof fn lemma_bytes_lt_total(a: Seq<u8>, b: Seq<u8>)
    requires
        a != b,
        !bytes_lt(a, b),
    ensures
        bytes_lt(b, a),
{
    lemma_first_difference(a, b, 0);
}

impl<V> Table<String, V> {
    /// Inserts `key`, or replaces its value, keeping the keys in ascending byte order.
    pub fn insert_ordered(&mut self, key: String, value: V)
        requires
            old(self).wf(),
            keys_ascending(old(self).entries@),
        ensures
            final(self).wf(),
            keys_ascending(final(self).entries@),
            final(self)@ == old(self)@.insert(key@, value),
    {
        if self.contains_key(&key) {
            self.insert(key, value);
            return;
        }
        let ghost before = *self;
        let ghost k = key@;
        let n = self.entries.len();
        let mut i: usize = 0;
        let mut searching = true;
        while searching && i < n
            invariant
                n == self.entries@.len(),
                *self == before,
                key@ == k,
                i <= n,
                forall|j: int| 0 <= j < i ==> bytes_lt(encode_utf8(#[trigger] self.entries@[j].0@), encode_utf8(k)),
                !searching ==> i < n && !bytes_lt(encode_utf8(self.entries@[i as int].0@), encode_utf8(k)),
            decreases n - i + if searching { 1int } else { 0int },
        {
            if bytes_less(self.entries[i].0.as_str().as_bytes(), key.as_str().as_bytes()) {
                i = i + 1;
            } else {
                searching = false;
            }
        }
        self.entries.insert(i, (key, value));
        proof {
            let old_e = before.entries@;
            let e = self.entries@;
            assert(!before.contains(k));
            assert forall|j: int| 0 <= j < old_e.len() implies #[trigger] old_e[j].0@ != k by {
                assert(!before.has_key_at(k, j));
            }
            assert forall|a: int, b: int|
                0 <= a < e.len() && 0 <= b < e.len() && a != b
                    implies #[trigger] e[a].0@ != #[trigger] e[b].0@ by {
                if a < i && b < i {
                    assert(e[a] == old_e[a] && e[b] == old_e[b]);
                } else if a < i && b > i {
                    assert(e[a] == old_e[a] && e[b] == old_e[b - 1]);
                } else if a > i && b < i {
                    assert(e[a] == old_e[a - 1] && e[b] == old_e[b]);
                } else if a > i && b > i {
                    assert(e[a] == old_e[a - 1] && e[b] == old_e[b - 1]);
                } else if a == i {
                    if b < i {
                        assert(e[b] == old_e[b]);
                    } else {
                        assert(e[b] == old_e[b - 1]);
                    }
                } else {
                    if a < i {
                        assert(e[a] == old_e[a]);
                    } else {
                        assert(e[a] == old_e[a - 1]);
                    }
                }
            }
            assert forall|j: int|
                0 <= j < e.len() - 1 implies bytes_lt(
                    encode_utf8(#[trigger] e[j].0@),
                    encode_utf8(e[j + 1].0@),
                ) by {
                if j + 1 < i {
                    assert(e[j] == old_e[j] && e[j + 1] == old_e[j + 1]);
                } else if j + 1 == i {
                    assert(e[j] == old_e[j]);
                    assert(bytes_lt(encode_utf8(old_e[j].0@), encode_utf8(k)));
                } else if j == i {
                    assert(e[j + 1] == old_e[j]);
                    let x = old_e[j].0@;
                    assert(x != k);
                    encode_utf8_decode_utf8(x);
                    encode_utf8_decode_utf8(k);
                    assert(encode_utf8(x) != encode_utf8(k));
                    lemma_bytes_lt_total(encode_utf8(x), encode_utf8(k));
                } else {
                    assert(e[j] == old_e[j - 1] && e[j + 1] == old_e[j]);
                }
            }
            assert forall|kk: Seq<char>| #[trigger] self.contains(kk) <==> before.contains(kk) || kk == k by {
                if before.contains(kk) {
                    let j = choose|j: int| #[trigger] before.has_key_at(kk, j);
                    if j < i {
                        assert(self.has_key_at(kk, j));
                    } else {
                        assert(self.has_key_at(kk, j + 1));
                    }
                }
                if self.contains(kk) {
                    let j = choose|j: int| #[trigger] self.has_key_at(kk, j);
                    if j < i {
                        assert(before.has_key_at(kk, j));
                    } else if j > i {
                        assert(before.has_key_at(kk, j - 1));
                    }
                }
                if kk == k {
                    assert(self.has_key_at(kk, i as int));
                }
            }
            assert forall|kk: Seq<char>| #[trigger] self.contains(kk) implies self@[kk] == (if kk == k {
                value
            } else {
                before@[kk]
            }) by {
                let j = choose|j: int| #[trigger] self.has_key_at(kk, j);
                self.lemma_value_at(kk, j);
                if j < i {
                    assert(before.has_key_at(kk, j));
                    before.lemma_value_at(kk, j);
                } else if j > i {
                    assert(before.has_key_at(kk, j - 1));
                    before.lemma_value_at(kk, j - 1);
                } else {
                    assert(self.has_key_at(kk, i as int));
                }
            }
            assert(self@ =~= before@.insert(k, value));
        }
    }
}

} // verus!
