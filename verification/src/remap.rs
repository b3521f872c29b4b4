//! The table that renumbers ids: it records, for each id of an old numbering,
//! the id that replaces it.

use std::collections::HashMap;
use vstd::prelude::*;

verus! {

broadcast use vstd::std_specs::hash::group_hash_axioms;

/// The recorded pairs `(old, new)`, in the order in which the old ids were
/// first seen.
pub type Pairs = Seq<(usize, usize)>;

/// Whether `old` has a recorded replacement.
pub open spec fn has_old(s: Pairs, old: usize) -> bool {
    exists|p: int| 0 <= p < s.len() && (#[trigger] s[p]).0 == old
}

/// A position at which `old` is recorded.
pub open spec fn position_of(s: Pairs, old: usize) -> int {
    choose|p: int| 0 <= p < s.len() && (#[trigger] s[p]).0 == old
}

/// The replacement recorded for `old`.
pub open spec fn new_of(s: Pairs, old: usize) -> usize {
    s[position_of(s, old)].1
}

/// No old id is recorded twice.
pub open spec fn keys_unique(s: Pairs) -> bool {
    forall|p: int, q: int| 0 <= p < q < s.len() ==> (#[trigger] s[p]).0 != (#[trigger] s[q]).0
}

/// The pairs after `old` has been resolved: unchanged if `old` is recorded,
/// else extended by `old` with the next free id, `len + offset`.
pub open spec fn resolve_one(s: Pairs, old: usize, offset: usize) -> Pairs {
    if has_old(s, old) {
        s
    } else {
        s.push((old, (s.len() + offset) as usize))
    }
}

/// The pairs after each id of `olds` has been resolved, front to back.
pub open spec fn resolve_all(s: Pairs, olds: Seq<usize>, offset: usize) -> Pairs
    decreases olds.len(),
{
    if olds.len() == 0 {
        s
    } else {
        resolve_one(resolve_all(s, olds.drop_last(), offset), olds.last(), offset)
    }
}

/// The pairs after `new` has been recorded for `old`, replacing what was
/// recorded for it before.
pub open spec fn record_one(s: Pairs, old: usize, new: usize) -> Pairs {
    if has_old(s, old) {
        s.update(position_of(s, old), (old, new))
    } else {
        s.push((old, new))
    }
}

/// Every pair holds its own position as the new id: the numbering is
/// zero-based and without gaps.
pub open spec fn dense(s: Pairs) -> bool {
    forall|p: int| 0 <= p < s.len() ==> (#[trigger] s[p]).1 == p
}

/// Every id of `ids` has a recorded replacement.
pub open spec fn covers(s: Pairs, ids: Seq<usize>) -> bool {
    forall|i: int| 0 <= i < ids.len() ==> has_old(s, #[trigger] ids[i])
}

/// Whatever `a` records, `b` records too, with the same replacement.
pub open spec fn extends(a: Pairs, b: Pairs) -> bool {
    forall|k: usize| #[trigger] has_old(a, k) ==> has_old(b, k) && new_of(b, k) == new_of(a, k)
}

/// What `t` records for an id, as a value.
pub open spec fn new_of_fn(t: Pairs) -> spec_fn(usize) -> usize {
    |x: usize| new_of(t, x)
}

/// With unique keys, the position of a recorded id is the one that holds it.
pub proof fn lemma_position(s: Pairs, p: int)
    requires
        keys_unique(s),
        0 <= p < s.len(),
    ensures
        has_old(s, s[p].0),
        position_of(s, s[p].0) == p,
        new_of(s, s[p].0) == s[p].1,
{
    let q = position_of(s, s[p].0);
    if q < p {
        assert(s[q].0 != s[p].0);
    } else if p < q {
        assert(s[p].0 != s[q].0);
    }
}

/// Resolving keeps every recorded pair where it is, keeps the keys unique,
/// and leaves `old` recorded.
pub proof fn lemma_resolve_one(s: Pairs, old: usize, offset: usize)
    requires
        keys_unique(s),
    ensures
        keys_unique(resolve_one(s, old, offset)),
        has_old(resolve_one(s, old, offset), old),
        s.len() <= resolve_one(s, old, offset).len() <= s.len() + 1,
        forall|p: int| 0 <= p < s.len() ==> resolve_one(s, old, offset)[p] == s[p],
        extends(s, resolve_one(s, old, offset)),
        dense(s) && offset == 0 && s.len() <= usize::MAX ==> dense(resolve_one(s, old, offset)),
{
    let t = resolve_one(s, old, offset);
    if !has_old(s, old) {
        assert(t[s.len() as int].0 == old);
        assert forall|p: int, q: int| 0 <= p < q < t.len() implies (#[trigger] t[p]).0 != (
        #[trigger] t[q]).0 by {
            if q == s.len() {
                assert(s[p].0 != old);
            } else {
                assert(s[p].0 != s[q].0);
            }
        }
    }
    assert forall|k: usize| has_old(s, k) implies has_old(t, k) && new_of(t, k) == new_of(s, k) by {
        let p = position_of(s, k);
        assert(t[p] == s[p]);
        lemma_position(s, p);
        lemma_position(t, p);
    }
}

/// Resolving a whole sequence: the same facts, for every id of the sequence.
pub proof fn lemma_resolve_all(s: Pairs, olds: Seq<usize>, offset: usize)
    requires
        keys_unique(s),
    ensures
        keys_unique(resolve_all(s, olds, offset)),
        s.len() <= resolve_all(s, olds, offset).len() <= s.len() + olds.len(),
        forall|p: int| 0 <= p < s.len() ==> resolve_all(s, olds, offset)[p] == s[p],
        extends(s, resolve_all(s, olds, offset)),
        covers(resolve_all(s, olds, offset), olds),
        dense(s) && offset == 0 && resolve_all(s, olds, offset).len() <= usize::MAX + 1 ==> dense(
            resolve_all(s, olds, offset),
        ),
    decreases olds.len(),
{
    if olds.len() > 0 {
        let m = resolve_all(s, olds.drop_last(), offset);
        lemma_resolve_all(s, olds.drop_last(), offset);
        lemma_resolve_one(m, olds.last(), offset);
        let t = resolve_all(s, olds, offset);
        assert forall|i: int| 0 <= i < olds.len() implies has_old(t, #[trigger] olds[i]) by {
            if i < olds.len() - 1 {
                assert(olds.drop_last()[i] == olds[i]);
            }
        }
    }
}

/// Whether every id of `ids` is below `bound`.
pub open spec fn ids_below(ids: Seq<usize>, bound: int) -> bool {
    forall|k: int| 0 <= k < ids.len() ==> #[trigger] ids[k] < bound
}

/// Pairs with unique keys that are all below `bound` are no more than
/// `bound`.
pub proof fn lemma_unique_count(s: Pairs, bound: int)
    requires
        keys_unique(s),
        0 <= bound,
        forall|p: int| 0 <= p < s.len() ==> (#[trigger] s[p]).0 < bound,
    ensures
        s.len() <= bound,
{
    let keys = Seq::new(s.len(), |p: int| s[p].0 as int);
    assert forall|p: int, q: int| 0 <= p < keys.len() && 0 <= q < keys.len() && p != q implies keys[p]
        != keys[q] by {
        if p < q {
            assert(s[p].0 != s[q].0);
        } else {
            assert(s[q].0 != s[p].0);
        }
    }
    keys.unique_seq_to_set();
    let range = vstd::set_lib::set_int_range(0, bound);
    vstd::set_lib::lemma_int_range(0, bound);
    assert forall|x: int| keys.to_set().contains(x) implies range.contains(x) by {
        let p = choose|p: int| 0 <= p < keys.len() && keys[p] == x;
        assert(s[p].0 < bound);
    }
    vstd::set_lib::lemma_len_subset(keys.to_set(), range);
}

/// Whatever is resolved into an empty table, the table is no longer than
/// the machine counts, and it records only what was resolved.
pub proof fn lemma_resolve_all_count(olds: Seq<usize>, bound: int)
    requires
        0 <= bound,
        ids_below(olds, bound),
    ensures
        resolve_all(Seq::empty(), olds, 0).len() <= bound,
        resolve_all(Seq::empty(), olds, 0).len() <= usize::MAX + 1,
        forall|p: int|
            0 <= p < resolve_all(Seq::empty(), olds, 0).len() ==> (#[trigger] resolve_all(
                Seq::empty(),
                olds,
                0,
            )[p]).0 < bound,
{
    let t = resolve_all(Seq::empty(), olds, 0);
    lemma_resolve_all(Seq::empty(), olds, 0);
    assert forall|p: int| 0 <= p < t.len() implies (#[trigger] t[p]).0 < bound by {
        lemma_resolve_all_exact(Seq::empty(), olds, 0, t[p].0);
        assert(has_old(t, t[p].0));
        let k = choose|k: int| 0 <= k < olds.len() && olds[k] == t[p].0;
        assert(olds[k] < bound);
    }
    lemma_unique_count(t, bound);
    lemma_unique_count(t, usize::MAX + 1);
}

/// Resolving a sequence of one id is resolving that id.
pub proof fn lemma_resolve_single(s: Pairs, id: usize, offset: usize)
    ensures
        resolve_all(s, seq![id], offset) == resolve_one(s, id, offset),
        resolve_all(s, Seq::<usize>::empty(), offset) == s,
{
    let one = seq![id];
    assert(one.drop_last() =~= Seq::<usize>::empty());
    assert(one.last() == id);
    assert(resolve_all(s, one.drop_last(), offset) == s);
}

/// Resolving `a` and then `b` is resolving `a + b`.
pub proof fn lemma_resolve_all_concat(s: Pairs, a: Seq<usize>, b: Seq<usize>, offset: usize)
    ensures
        resolve_all(resolve_all(s, a, offset), b, offset) == resolve_all(s, a + b, offset),
    decreases b.len(),
{
    if b.len() == 0 {
        assert(a + b =~= a);
    } else {
        lemma_resolve_all_concat(s, a, b.drop_last(), offset);
        assert((a + b).drop_last() =~= a + b.drop_last());
        assert((a + b).last() == b.last());
    }
}

/// Resolving records the ids that are resolved, and no others.
pub proof fn lemma_resolve_all_exact(s: Pairs, olds: Seq<usize>, offset: usize, k: usize)
    ensures
        has_old(resolve_all(s, olds, offset), k) <==> has_old(s, k) || olds.contains(k),
    decreases olds.len(),
{
    if olds.len() > 0 {
        let front = olds.drop_last();
        let m = resolve_all(s, front, offset);
        let t = resolve_all(s, olds, offset);
        lemma_resolve_all_exact(s, front, offset, k);
        if front.contains(k) {
            let i = choose|i: int| 0 <= i < front.len() && front[i] == k;
            assert(olds[i] == k);
        }
        if olds.contains(k) {
            let i = choose|i: int| 0 <= i < olds.len() && olds[i] == k;
            if i < olds.len() - 1 {
                assert(front[i] == k);
            }
        }
        if has_old(m, k) {
            let p = position_of(m, k);
            assert(t[p] == m[p]);
        }
        if has_old(t, k) && !has_old(m, k) {
            let p = position_of(t, k);
            if p < m.len() {
                assert(t[p] == m[p]);
            }
            assert(olds[olds.len() - 1] == k);
        }
        if !has_old(m, olds.last()) {
            assert(t[m.len() as int].0 == olds.last());
        }
    }
}

/// A renumbering table: old id to new id, with the old ids kept in the order
/// in which they were first recorded.
pub struct IdRemap {
    slots: HashMap<usize, usize>,
    pairs: Vec<(usize, usize)>,
}

impl View for IdRemap {
    type V = Seq<(usize, usize)>;

    closed spec fn view(&self) -> Seq<(usize, usize)> {
        self.pairs@
    }
}

impl IdRemap {
    /// The lookup index agrees with the recorded pairs.
    pub closed spec fn wf(&self) -> bool {
        &&& forall|p: int|
            0 <= p < self.pairs@.len() ==> self.slots@.contains_key((#[trigger] self.pairs@[p]).0)
                && self.slots@[self.pairs@[p].0] == p
        &&& forall|k: usize| #[trigger]
            self.slots@.contains_key(k) ==> 0 <= self.slots@[k] < self.pairs@.len()
                && self.pairs@[self.slots@[k] as int].0 == k
    }

    /// A well-formed table records no old id twice.
    pub proof fn lemma_unique(&self)
        requires
            self.wf(),
        ensures
            keys_unique(self@),
    {
        assert forall|p: int, q: int| 0 <= p < q < self@.len() implies (#[trigger] self@[p]).0 != (
        #[trigger] self@[q]).0 by {
            assert(self.slots@[self.pairs@[p].0] == p);
            assert(self.slots@[self.pairs@[q].0] == q);
        }
    }

    /// A table holds no more pairs than the machine can count.
    pub proof fn lemma_len(&self)
        ensures
            self@.len() <= usize::MAX,
    {
        broadcast use vstd::std_specs::vec::axiom_spec_len;

        assert(self.pairs.len() == self.pairs@.len());
    }

    /// An empty table.
    pub fn new() -> (t: Self)
        ensures
            t.wf(),
            t@ == Seq::<(usize, usize)>::empty(),
    {
        IdRemap { slots: HashMap::new(), pairs: Vec::new() }
    }

    /// The number of recorded old ids.
    pub fn len(&self) -> (n: usize)
        ensures
            n == self@.len(),
    {
        self.pairs.len()
    }

    /// The pair recorded at position `p`.
    pub fn pair_at(&self, p: usize) -> (e: (usize, usize))
        requires
            p < self@.len(),
        ensures
            e == self@[p as int],
    {
        self.pairs[p]
    }

    /// The new id recorded for `id`, if there is one.
    pub fn get(&self, id: usize) -> (r: Option<usize>)
        requires
            self.wf(),
        ensures
            r is Some <==> has_old(self@, id),
            r is Some ==> r->0 == new_of(self@, id),
    {
        match self.slots.get(&id) {
            Some(p) => {
                proof {
                    self.lemma_unique();
                    lemma_position(self@, *p as int);
                }
                Some(self.pairs[*p].1)
            },
            None => {
                assert(!has_old(self@, id)) by {
                    if has_old(self@, id) {
                        let p = position_of(self@, id);
                        assert(self.slots@.contains_key(self.pairs@[p].0));
                    }
                }
                None
            },
        }
    }

    /// The new id of `id`: the recorded one, or else the next free id,
    /// `len + offset`, which is then recorded.
    pub fn resolve(&mut self, id: usize, offset: usize) -> (new: usize)
        requires
            old(self).wf(),
            offset == 0 || old(self)@.len() + offset <= usize::MAX,
        ensures
            final(self).wf(),
            final(self)@ == resolve_one(old(self)@, id, offset),
            new == new_of(final(self)@, id),
    {
        proof {
            self.lemma_unique();
            lemma_resolve_one(self@, id, offset);
        }
        match self.get(id) {
            Some(new) => new,
            None => {
                let p = self.pairs.len();
                let new = p + offset;
                self.slots.insert(id, p);
                self.pairs.push((id, new));
                proof {
                    lemma_position(self@, p as int);
                }
                new
            },
        }
    }

    /// Records `new` for `id`, in place of what was recorded for it.
    pub fn record(&mut self, id: usize, new: usize)
        requires
            old(self).wf(),
        ensures
            final(self).wf(),
            final(self)@ == record_one(old(self)@, id, new),
    {
        proof {
            self.lemma_unique();
        }
        match self.slots.get(&id) {
            Some(p) => {
                let p = *p;
                proof {
                    lemma_position(self@, p as int);
                }
                self.pairs.set(p, (id, new));
            },
            None => {
                assert(!has_old(self@, id)) by {
                    if has_old(self@, id) {
                        let p = position_of(self@, id);
                        assert(self.slots@.contains_key(self.pairs@[p].0));
                    }
                }
                let p = self.pairs.len();
                self.slots.insert(id, p);
                self.pairs.push((id, new));
            },
        }
    }
}

} // verus!
