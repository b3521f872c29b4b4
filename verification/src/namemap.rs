//! Values under names, kept in the order in which the names came.

use vstd::prelude::*;

verus! {

/// The first place of `key` among `keys`, if it is there.
pub open spec fn position(keys: Seq<Seq<char>>, key: Seq<char>) -> Option<int>
    decreases keys.len(),
{
    if keys.len() == 0 {
        None
    } else {
        match position(keys.drop_last(), key) {
            Some(p) => Some(p),
            None => if keys.last() == key {
                Some(keys.len() - 1)
            } else {
                None
            },
        }
    }
}

/// No key stands at two places.
pub open spec fn distinct(keys: Seq<Seq<char>>) -> bool {
    forall|p: int, q: int| 0 <= p < q < keys.len() ==> keys[p] != keys[q]
}

/// What [`position`] finds is the first place that holds the key.
pub proof fn lemma_position(keys: Seq<Seq<char>>, key: Seq<char>)
    ensures
        match position(keys, key) {
            Some(p) => 0 <= p < keys.len() && keys[p] == key && forall|q: int|
                0 <= q < p ==> keys[q] != key,
            None => forall|q: int| 0 <= q < keys.len() ==> keys[q] != key,
        },
    decreases keys.len(),
{
    if keys.len() > 0 {
        lemma_position(keys.drop_last(), key);
        match position(keys.drop_last(), key) {
            Some(p) => {
                assert(keys.drop_last()[p] == keys[p]);
                assert forall|q: int| 0 <= q < p implies keys[q] != key by {
                    assert(keys.drop_last()[q] == keys[q]);
                }
            },
            None => {
                assert forall|q: int| 0 <= q < keys.len() - 1 implies keys[q] != key by {
                    assert(keys.drop_last()[q] == keys[q]);
                }
            },
        }
    }
}

/// Values under names. A name is looked up from the front, and the first
/// entry that holds it counts; [`NameMap::insert`] never adds a name twice.
#[derive(Debug, PartialEq)]
pub struct NameMap<V> {
    pub entries: Vec<(String, V)>,
}

impl<V: DeepView> DeepView for NameMap<V> {
    type V = Seq<(Seq<char>, V::V)>;

    open spec fn deep_view(&self) -> Seq<(Seq<char>, V::V)> {
        Seq::new(self.entries@.len(), |i: int| (self.entries@[i].0@, self.entries@[i].1.deep_view()))
    }
}

impl<V: Clone> Clone for NameMap<V> {
    fn clone(&self) -> (r: Self)
        ensures
            r.entries@.len() == self.entries@.len(),
            forall|i: int|
                0 <= i < self.entries@.len() ==> (#[trigger] r.entries@[i]).0 == self.entries@[i].0
                    && cloned::<V>(self.entries@[i].1, r.entries@[i].1),
    {
        let mut entries: Vec<(String, V)> = Vec::new();
        let n = self.entries.len();
        let mut i: usize = 0;
        while i < n
            invariant
                i <= n,
                n == self.entries@.len(),
                entries@.len() == i,
                forall|j: int|
                    0 <= j < i ==> (#[trigger] entries@[j]).0 == self.entries@[j].0 && cloned::<V>(
                        self.entries@[j].1,
                        entries@[j].1,
                    ),
            decreases n - i,
        {
            let key = self.entries[i].0.clone();
            let value = self.entries[i].1.clone();
            entries.push((key, value));
            i += 1;
        }
        NameMap { entries }
    }
}

impl<V> NameMap<V> {
    /// The names, in order.
    pub open spec fn keys(self) -> Seq<Seq<char>> {
        Seq::new(self.entries@.len(), |i: int| self.entries@[i].0@)
    }

    /// The entries after `value` has been put under `key`: in the place of
    /// the first entry of that name, or else at the end.
    pub open spec fn put(self, key: String, value: V) -> Seq<(String, V)> {
        match position(self.keys(), key@) {
            Some(p) => self.entries@.update(p, (key, value)),
            None => self.entries@.push((key, value)),
        }
    }

    /// A map without entries.
    pub fn new() -> (m: Self)
        ensures
            m.entries@ == Seq::<(String, V)>::empty(),
    {
        NameMap { entries: Vec::new() }
    }

    /// The number of entries.
    pub fn len(&self) -> (n: usize)
        ensures
            n == self.entries@.len(),
    {
        self.entries.len()
    }

    /// Whether there is no entry.
    pub fn is_empty(&self) -> (b: bool)
        ensures
            b == (self.entries@.len() == 0),
    {
        self.entries.len() == 0
    }

    /// The first place that holds `key`.
    pub fn find(&self, key: &String) -> (r: Option<usize>)
        ensures
            match r {
                Some(p) => position(self.keys(), key@) == Some(p as int),
                None => position(self.keys(), key@) is None,
            },
    {
        let n = self.entries.len();
        let mut i: usize = 0;
        assert(self.keys().take(0) =~= Seq::<Seq<char>>::empty());
        while i < n
            invariant
                i <= n,
                n == self.entries@.len(),
                position(self.keys().take(i as int), key@) is None,
            decreases n - i,
        {
            assert(self.keys().take(i + 1).drop_last() =~= self.keys().take(i as int));
            if self.entries[i].0 == *key {
                proof {
                    lemma_prefix_position(self.keys(), key@, i + 1);
                }
                return Some(i);
            }
            i += 1;
        }
        assert(self.keys().take(n as int) =~= self.keys());
        None
    }

    /// Whether some entry holds `key`.
    pub fn contains_key(&self, key: &String) -> (b: bool)
        ensures
            b == position(self.keys(), key@) is Some,
    {
        self.find(key).is_some()
    }

    /// The value under `key`: that of the first entry of that name.
    pub fn get(&self, key: &String) -> (r: Option<&V>)
        ensures
            match position(self.keys(), key@) {
                Some(p) => r == Some(&self.entries@[p].1),
                None => r is None,
            },
    {
        proof {
            lemma_position(self.keys(), key@);
        }
        match self.find(key) {
            Some(p) => Some(&self.entries[p].1),
            None => None,
        }
    }

    /// Puts `value` under `key`, in place of the value that the name had or
    /// else as a new, last entry.
    pub fn insert(&mut self, key: String, value: V)
        ensures
            final(self).entries@ == old(self).put(key, value),
            distinct(old(self).keys()) ==> distinct(final(self).keys()),
    {
        proof {
            lemma_position(self.keys(), key@);
        }
        match self.find(&key) {
            Some(p) => {
                self.entries.set(p, (key, value));
                assert(final(self).keys() =~= old(self).keys());
            },
            None => {
                self.entries.push((key, value));
                assert(final(self).keys() =~= old(self).keys().push(key@));
            },
        }
    }
}

/// The names of named items, in order.
pub open spec fn keys_of<X>(s: Seq<(Seq<char>, X)>) -> Seq<Seq<char>> {
    Seq::new(s.len(), |i: int| s[i].0)
}

/// The item under `key`: that of the first entry of that name.
pub open spec fn find_in<X>(s: Seq<(Seq<char>, X)>, key: Seq<char>) -> Option<X> {
    match position(keys_of(s), key) {
        Some(p) => Some(s[p].1),
        None => None,
    }
}

/// The named items after `x` has been put under `key`: in the place of the
/// first entry of that name, or else at the end.
pub open spec fn put_in<X>(s: Seq<(Seq<char>, X)>, key: Seq<char>, x: X) -> Seq<(Seq<char>, X)> {
    match position(keys_of(s), key) {
        Some(p) => s.update(p, (key, x)),
        None => s.push((key, x)),
    }
}

/// What comes of putting each of the named items `s`, in order, into
/// `base`.
pub open spec fn put_all<X>(base: Seq<(Seq<char>, X)>, s: Seq<(Seq<char>, X)>) -> Seq<
    (Seq<char>, X),
>
    decreases s.len(),
{
    if s.len() == 0 {
        base
    } else {
        put_in(put_all(base, s.drop_last()), s.last().0, s.last().1)
    }
}

/// What comes of putting each of the named items `s`, in order, into a map
/// that starts empty.
pub open spec fn gathered<X>(s: Seq<(Seq<char>, X)>) -> Seq<(Seq<char>, X)>
    decreases s.len(),
{
    if s.len() == 0 {
        Seq::empty()
    } else {
        put_in(gathered(s.drop_last()), s.last().0, s.last().1)
    }
}

impl<V: DeepView> NameMap<V> {
    /// What the map holds has the names of the map.
    pub proof fn lemma_keys(self)
        ensures
            keys_of(self.deep_view()) == self.keys(),
    {
        assert(keys_of(self.deep_view()) =~= self.keys());
    }

    /// Putting a value into a map puts what it holds into what the map
    /// holds.
    pub proof fn lemma_put(before: Self, after: Self, key: String, value: V)
        requires
            after.entries@ == before.put(key, value),
        ensures
            after.deep_view() == put_in(before.deep_view(), key@, value.deep_view()),
    {
        before.lemma_keys();
        lemma_position(before.keys(), key@);
        assert(after.deep_view() =~= put_in(before.deep_view(), key@, value.deep_view()));
    }

    /// Looking up a value finds what the map holds under the name.
    pub proof fn lemma_get(self, key: Seq<char>)
        ensures
            find_in(self.deep_view(), key) == (match position(self.keys(), key) {
                Some(p) => Some(self.entries@[p].1.deep_view()),
                None => None,
            }),
    {
        self.lemma_keys();
        lemma_position(self.keys(), key);
    }
}

/// A key found in a prefix is found at the same place in the whole.
pub proof fn lemma_prefix_position(keys: Seq<Seq<char>>, key: Seq<char>, n: int)
    requires
        0 <= n <= keys.len(),
        position(keys.take(n), key) is Some,
    ensures
        position(keys, key) == position(keys.take(n), key),
    decreases keys.len() - n,
{
    if n < keys.len() {
        assert(keys.take(n + 1).drop_last() =~= keys.take(n));
        lemma_prefix_position(keys, key, n + 1);
    } else {
        assert(keys.take(n) =~= keys);
    }
}

/// Each of the named items after a put is the item that was put or one
/// that was there.
pub proof fn lemma_put_in_from<X>(s: Seq<(Seq<char>, X)>, key: Seq<char>, x: X, i: int)
    requires
        0 <= i < put_in(s, key, x).len(),
    ensures
        put_in(s, key, x)[i] == (key, x) || (exists|j: int|
            0 <= j < s.len() && put_in(s, key, x)[i] == s[j]),
        s.len() <= put_in(s, key, x).len() <= s.len() + 1,
{
    lemma_position(keys_of(s), key);
    match position(keys_of(s), key) {
        Some(p) => {
            if i != p {
                assert(put_in(s, key, x)[i] == s[i]);
            }
        },
        None => {
            if i < s.len() {
                assert(put_in(s, key, x)[i] == s[i]);
            }
        },
    }
}

/// Each of the named items after all of `s` have been put into `base` is
/// one of `s` or one of `base`.
pub proof fn lemma_put_all_from<X>(base: Seq<(Seq<char>, X)>, s: Seq<(Seq<char>, X)>, i: int)
    requires
        0 <= i < put_all(base, s).len(),
    ensures
        (exists|j: int| 0 <= j < s.len() && put_all(base, s)[i] == s[j]) || (exists|j: int|
            0 <= j < base.len() && put_all(base, s)[i] == base[j]),
    decreases s.len(),
{
    let all = put_all(base, s);
    if s.len() == 0 {
        assert(all[i] == base[i]);
    } else {
        let before = put_all(base, s.drop_last());
        lemma_put_in_from(before, s.last().0, s.last().1, i);
        if all[i] == (s.last().0, s.last().1) {
            assert(all[i] == s[s.len() - 1]);
        } else {
            let j = choose|j: int| 0 <= j < before.len() && all[i] == before[j];
            lemma_put_all_from(base, s.drop_last(), j);
            if exists|k: int| 0 <= k < s.drop_last().len() && before[j] == s.drop_last()[k] {
                let k = choose|k: int| 0 <= k < s.drop_last().len() && before[j] == s.drop_last()[k];
                assert(all[i] == s[k]);
            } else {
                let k = choose|k: int| 0 <= k < base.len() && before[j] == base[k];
                assert(all[i] == base[k]);
            }
        }
    }
}

/// Putting into an empty map is gathering.
pub proof fn lemma_gathered_is_put_all<X>(s: Seq<(Seq<char>, X)>)
    ensures
        gathered(s) == put_all(Seq::empty(), s),
    decreases s.len(),
{
    if s.len() > 0 {
        lemma_gathered_is_put_all(s.drop_last());
    }
}

/// Whether some item stands under `key`.
pub open spec fn present<X>(s: Seq<(Seq<char>, X)>, key: Seq<char>) -> bool {
    exists|j: int| 0 <= j < s.len() && (#[trigger] s[j]).0 == key
}

/// Whether every item that stands under `key` is `x`.
pub open spec fn uniform<X>(s: Seq<(Seq<char>, X)>, key: Seq<char>, x: X) -> bool {
    forall|j: int| 0 <= j < s.len() && (#[trigger] s[j]).0 == key ==> s[j].1 == x
}

/// Looking up a name finds an item if and only if one stands under it.
pub proof fn lemma_find_present<X>(s: Seq<(Seq<char>, X)>, key: Seq<char>)
    ensures
        find_in(s, key) is Some <==> present(s, key),
        find_in(s, key) is Some ==> exists|j: int|
            0 <= j < s.len() && (#[trigger] s[j]).0 == key && s[j].1 == find_in(s, key)->0,
{
    lemma_position(keys_of(s), key);
    match position(keys_of(s), key) {
        Some(p) => {
            assert(s[p].0 == key);
        },
        None => {
            if present(s, key) {
                let j = choose|j: int| 0 <= j < s.len() && (#[trigger] s[j]).0 == key;
                assert(keys_of(s)[j] == key);
            }
        },
    }
}

/// After a put, the name that was put finds the item that was put, and
/// every other name finds what it found before.
pub proof fn lemma_find_put<X>(s: Seq<(Seq<char>, X)>, key: Seq<char>, x: X, other: Seq<char>)
    ensures
        find_in(put_in(s, key, x), other) == if other == key {
            Some(x)
        } else {
            find_in(s, other)
        },
{
    let t = put_in(s, key, x);
    lemma_position(keys_of(s), key);
    lemma_position(keys_of(s), other);
    lemma_position(keys_of(t), other);
    match position(keys_of(s), key) {
        Some(p) => {
            assert(keys_of(t) =~= keys_of(s));
            if other != key {
                let q = position(keys_of(s), other);
                if q is Some {
                    assert(t[q->0] == s[q->0]);
                }
            }
        },
        None => {
            assert(keys_of(t) =~= keys_of(s).push(key));
            assert(keys_of(t).drop_last() =~= keys_of(s));
            let q = position(keys_of(s), other);
            if q is Some {
                assert(t[q->0] == s[q->0]);
            }
        },
    }
}

/// After all of `s` have been put into `base`, a name under which every
/// item of `s` is the same finds that item, and a name that is not in `s`
/// finds what it found in `base`.
pub proof fn lemma_find_put_all<X>(
    base: Seq<(Seq<char>, X)>,
    s: Seq<(Seq<char>, X)>,
    key: Seq<char>,
    x: X,
)
    requires
        uniform(s, key, x),
    ensures
        present(s, key) ==> find_in(put_all(base, s), key) == Some(x),
        !present(s, key) ==> find_in(put_all(base, s), key) == find_in(base, key),
    decreases s.len(),
{
    if s.len() > 0 {
        let front = s.drop_last();
        assert forall|j: int| 0 <= j < front.len() && (#[trigger] front[j]).0 == key implies front[j].1
            == x by {
            assert(front[j] == s[j]);
        }
        lemma_find_put_all(base, front, key, x);
        lemma_find_put(put_all(base, front), s.last().0, s.last().1, key);
        if s.last().0 == key {
            assert(s[s.len() - 1].0 == key);
        } else {
            if present(s, key) {
                let j = choose|j: int| 0 <= j < s.len() && (#[trigger] s[j]).0 == key;
                assert(front[j].0 == key);
            }
            if present(front, key) {
                let j = choose|j: int| 0 <= j < front.len() && (#[trigger] front[j]).0 == key;
                assert(s[j].0 == key);
            }
        }
    }
}

/// Whatever stands under a name after all of `s` have been put into a map
/// that started empty stood under it in `s`.
pub proof fn lemma_gathered_uniform<X>(s: Seq<(Seq<char>, X)>, key: Seq<char>, x: X)
    requires
        uniform(s, key, x),
    ensures
        uniform(gathered(s), key, x),
        present(gathered(s), key) == present(s, key),
{
    lemma_gathered_is_put_all(s);
    let g = gathered(s);
    assert forall|j: int| 0 <= j < g.len() && (#[trigger] g[j]).0 == key implies g[j].1 == x by {
        lemma_put_all_from(Seq::empty(), s, j);
        let k = choose|k: int| 0 <= k < s.len() && g[j] == s[k];
        assert(s[k].0 == key);
    }
    lemma_find_put_all(Seq::empty(), s, key, x);
    lemma_find_present(g, key);
    lemma_find_present(Seq::<(Seq<char>, X)>::empty(), key);
}

} // verus!
