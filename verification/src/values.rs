//! Nested arrays of optional references into the appearance of a document:
//! the material values and the texture values of a geometry.

use crate::nested::{
    gather, lemma_gather_has, lemma_gather_upto_len, lemma_gather_upto_step, lemma_rewrite_same,
    lemma_view_indices, lemma_view_nested, lists_upto, NestedArray, Tree,
};
use crate::tables::{add_capped, capped};
use crate::nested::{lemma_gather_map, lemma_rewrite_lists};
use crate::remap::new_of_fn;
use crate::remap::{
    covers, extends, has_old, keys_unique, lemma_resolve_all, lemma_resolve_all_concat,
    lemma_resolve_one, new_of, resolve_all, IdRemap, Pairs,
};
use vstd::prelude::*;

verus! {

/// The references that are present in `s`, in order.
pub open spec fn somes(s: Seq<Option<usize>>) -> Seq<usize>
    decreases s.len(),
{
    if s.len() == 0 {
        Seq::empty()
    } else {
        match s.last() {
            Some(x) => somes(s.drop_last()).push(x),
            None => somes(s.drop_last()),
        }
    }
}

/// Where the leading part of a list ends: after its first place, if it has one.
pub open spec fn lead_end(s: Seq<Option<usize>>) -> int {
    if s.len() > 0 {
        1
    } else {
        0
    }
}

/// The references of `s` that go through the first table: with `lead`, the
/// one in the first place; without, all of them.
pub open spec fn first_ids(lead: bool, s: Seq<Option<usize>>) -> Seq<usize> {
    if lead {
        somes(s.subrange(0, lead_end(s)))
    } else {
        somes(s)
    }
}

/// The references of `s` that go through the second table: with `lead`, all
/// but the one in the first place; without, none.
pub open spec fn rest_ids(lead: bool, s: Seq<Option<usize>>) -> Seq<usize> {
    if lead {
        somes(s.subrange(lead_end(s), s.len() as int))
    } else {
        Seq::empty()
    }
}

/// [`first_ids`], as a value.
pub open spec fn first_ids_fn(lead: bool) -> spec_fn(Seq<Option<usize>>) -> Seq<usize> {
    |s: Seq<Option<usize>>| first_ids(lead, s)
}

/// [`rest_ids`], as a value.
pub open spec fn rest_ids_fn(lead: bool) -> spec_fn(Seq<Option<usize>>) -> Seq<usize> {
    |s: Seq<Option<usize>>| rest_ids(lead, s)
}

/// One reference, replaced by what `t` records for it; an absent one stays
/// absent.
pub open spec fn replaced_one(t: Pairs, v: Option<usize>) -> Option<usize> {
    match v {
        Some(x) => Some(new_of(t, x)),
        None => None,
    }
}

/// One list, each reference replaced through the table it goes through.
pub open spec fn replaced(a: Pairs, b: Pairs, lead: bool, s: Seq<Option<usize>>) -> Seq<
    Option<usize>,
> {
    Seq::new(
        s.len(),
        |i: int|
            if lead && i > 0 {
                replaced_one(b, s[i])
            } else {
                replaced_one(a, s[i])
            },
    )
}

/// [`replaced`], as a value.
pub open spec fn replaced_fn(a: Pairs, b: Pairs, lead: bool) -> spec_fn(Seq<Option<usize>>) -> Seq<
    Option<usize>,
> {
    |s: Seq<Option<usize>>| replaced(a, b, lead, s)
}

impl Tree<Option<usize>> {
    /// The references that go through the first table, in document order.
    pub open spec fn first_ids(self, lead: bool) -> Seq<usize> {
        gather(self.lists(), first_ids_fn(lead))
    }

    /// The references that go through the second table, in document order.
    pub open spec fn rest_ids(self, lead: bool) -> Seq<usize> {
        gather(self.lists(), rest_ids_fn(lead))
    }

    /// The same nesting, each reference replaced through its table.
    pub open spec fn replaced(self, a: Pairs, b: Pairs, lead: bool) -> Tree<Option<usize>> {
        self.rewrite(replaced_fn(a, b, lead))
    }
}

/// One place more adds its reference, if it holds one.
pub proof fn lemma_somes_step(s: Seq<Option<usize>>, from: int, i: int)
    requires
        0 <= from <= i < s.len(),
    ensures
        somes(s.subrange(from, i + 1)) == match s[i] {
            Some(x) => somes(s.subrange(from, i)).push(x),
            None => somes(s.subrange(from, i)),
        },
{
    assert(s.subrange(from, i + 1).drop_last() =~= s.subrange(from, i));
}

/// A longer range holds no fewer references.
pub proof fn lemma_somes_len(s: Seq<Option<usize>>, from: int, i: int, to: int)
    requires
        0 <= from <= i <= to <= s.len(),
    ensures
        somes(s.subrange(from, i)).len() <= somes(s.subrange(from, to)).len(),
    decreases to - i,
{
    if i < to {
        lemma_somes_step(s, from, i);
        lemma_somes_len(s, from, i + 1, to);
    }
}

/// A reference that a range holds is among its references.
pub proof fn lemma_somes_has(s: Seq<Option<usize>>, from: int, to: int, i: int)
    requires
        0 <= from <= i < to <= s.len(),
        s[i] is Some,
    ensures
        somes(s.subrange(from, to)).contains(s[i]->0),
    decreases to - from,
{
    lemma_somes_step(s, from, to - 1);
    let front = somes(s.subrange(from, to - 1));
    let all = somes(s.subrange(from, to));
    if i == to - 1 {
        assert(all[front.len() as int] == s[i]->0);
    } else {
        lemma_somes_has(s, from, to - 1, i);
        let p = choose|p: int| 0 <= p < front.len() && front[p] == s[i]->0;
        assert(all[p] == s[i]->0);
    }
}

/// Tables that grow do not change how a tree that they cover is rewritten.
pub proof fn lemma_replaced_stable(
    t: Tree<Option<usize>>,
    lead: bool,
    a: Pairs,
    b: Pairs,
    a2: Pairs,
    b2: Pairs,
)
    requires
        covers(a, t.first_ids(lead)),
        extends(a, a2),
        lead ==> covers(b, t.rest_ids(lead)) && extends(b, b2),
    ensures
        t.replaced(a, b, lead) == t.replaced(a2, b2, lead),
        covers(a2, t.first_ids(lead)),
        lead ==> covers(b2, t.rest_ids(lead)),
{
    let fa = first_ids_fn(lead);
    let fb = rest_ids_fn(lead);
    assert forall|s: Seq<Option<usize>>| #[trigger] t.lists().contains(s) implies replaced_fn(
        a,
        b,
        lead,
    )(s) == replaced_fn(a2, b2, lead)(s) by {
        let k = choose|k: int| 0 <= k < t.lists().len() && t.lists()[k] == s;
        assert forall|i: int| 0 <= i < s.len() implies replaced(a, b, lead, s)[i] == replaced(
            a2,
            b2,
            lead,
            s,
        )[i] by {
            if s[i] is Some {
                let x = s[i]->0;
                if lead && i > 0 {
                    lemma_somes_has(s, 1, s.len() as int, i);
                    let rs = rest_ids(lead, s);
                    let q = choose|q: int| 0 <= q < rs.len() && rs[q] == x;
                    assert(fb(s) == rs);
                    lemma_gather_has(t.lists(), fb, k, q);
                    let j = choose|j: int| 0 <= j < t.rest_ids(lead).len() && t.rest_ids(lead)[j] == x;
                    assert(has_old(b, t.rest_ids(lead)[j]));
                } else {
                    if lead {
                        lemma_somes_has(s, 0, 1, i);
                    } else {
                        assert(s.subrange(0, s.len() as int) =~= s);
                        lemma_somes_has(s, 0, s.len() as int, i);
                    }
                    let fs = first_ids(lead, s);
                    let q = choose|q: int| 0 <= q < fs.len() && fs[q] == x;
                    assert(fa(s) == fs);
                    lemma_gather_has(t.lists(), fa, k, q);
                    let j = choose|j: int|
                        0 <= j < t.first_ids(lead).len() && t.first_ids(lead)[j] == x;
                    assert(has_old(a, t.first_ids(lead)[j]));
                }
            }
        }
        assert(replaced(a, b, lead, s) =~= replaced(a2, b2, lead, s));
    }
    lemma_rewrite_same(t, replaced_fn(a, b, lead), replaced_fn(a2, b2, lead));
    assert forall|i: int| 0 <= i < t.first_ids(lead).len() implies has_old(
        a2,
        #[trigger] t.first_ids(lead)[i],
    ) by {
        assert(has_old(a, t.first_ids(lead)[i]));
    }
    if lead {
        assert forall|i: int| 0 <= i < t.rest_ids(lead).len() implies has_old(
            b2,
            #[trigger] t.rest_ids(lead)[i],
        ) by {
            assert(has_old(b, t.rest_ids(lead)[i]));
        }
    }
}

/// Replaces the references at the places `from..to` of `arr` through `table`.
fn resolve_range(
    arr: &mut Vec<Option<usize>>,
    from: usize,
    to: usize,
    table: &mut IdRemap,
    offset: usize,
)
    requires
        from <= to <= old(arr)@.len(),
        old(table).wf(),
        offset == 0 || old(table)@.len() + somes(old(arr)@.subrange(from as int, to as int)).len()
            + offset <= usize::MAX,
    ensures
        final(table).wf(),
        final(table)@ == resolve_all(
            old(table)@,
            somes(old(arr)@.subrange(from as int, to as int)),
            offset,
        ),
        final(arr)@.len() == old(arr)@.len(),
        forall|j: int|
            0 <= j < old(arr)@.len() ==> #[trigger] final(arr)@[j] == if from <= j < to {
                replaced_one(final(table)@, old(arr)@[j])
            } else {
                old(arr)@[j]
            },
{
    let ghost a0 = old(arr)@;
    let ghost t0 = table@;
    let mut i: usize = from;
    proof {
        table.lemma_unique();
        assert(a0.subrange(from as int, from as int) =~= Seq::<Option<usize>>::empty());
    }
    while i < to
        invariant
            from <= i <= to <= a0.len(),
            a0 == old(arr)@,
            arr@.len() == a0.len(),
            t0 == old(table)@,
            keys_unique(t0),
            table.wf(),
            offset == 0 || t0.len() + somes(a0.subrange(from as int, to as int)).len() + offset
                <= usize::MAX,
            table@ == resolve_all(t0, somes(a0.subrange(from as int, i as int)), offset),
            table@.len() <= t0.len() + somes(a0.subrange(from as int, i as int)).len(),
            forall|j: int| 0 <= j < a0.len() && !(from <= j < i) ==> arr@[j] == a0[j],
            forall|j: int|
                from <= j < i ==> arr@[j] == replaced_one(table@, #[trigger] a0[j]) && (a0[j] is Some
                    ==> has_old(table@, a0[j]->0)),
        decreases to - i,
    {
        let ghost before = table@;
        let ghost ids = somes(a0.subrange(from as int, i as int));
        proof {
            lemma_somes_step(a0, from as int, i as int);
            lemma_somes_len(a0, from as int, i + 1, to as int);
            lemma_resolve_all(t0, ids, offset);
        }
        match arr[i] {
            Some(id) => {
                let new = table.resolve(id, offset);
                arr[i] = Some(new);
                proof {
                    lemma_resolve_one(before, id, offset);
                    assert(ids.push(id).drop_last() =~= ids);
                }
            },
            None => {},
        }
        proof {
            assert forall|j: int| from <= j < i + 1 implies arr@[j] == replaced_one(
                table@,
                #[trigger] a0[j],
            ) && (a0[j] is Some ==> has_old(table@, a0[j]->0)) by {
                if j < i && a0[j] is Some {
                    assert(has_old(before, a0[j]->0));
                }
            }
        }
        i += 1;
    }
}

/// Replaces the references of one list: with `lead`, the one in the first
/// place through `first` and the others through `rest`, where a new id is
/// `len + offset`; without `lead`, all of them through `first`.
fn renumber_values_list(
    arr: &mut Vec<Option<usize>>,
    first: &mut IdRemap,
    rest: &mut IdRemap,
    offset: usize,
    lead: bool,
)
    requires
        old(first).wf(),
        old(rest).wf(),
        offset == 0 || old(rest)@.len() + rest_ids(lead, old(arr)@).len() + offset <= usize::MAX,
    ensures
        final(first).wf(),
        final(rest).wf(),
        final(first)@ == resolve_all(old(first)@, first_ids(lead, old(arr)@), 0),
        final(rest)@ == resolve_all(old(rest)@, rest_ids(lead, old(arr)@), offset),
        final(arr)@ == replaced(final(first)@, final(rest)@, lead, old(arr)@),
{
    let n = arr.len();
    if lead {
        let m: usize = if n > 0 {
            1
        } else {
            0
        };
        resolve_range(arr, 0, m, first, 0);
        let ghost mid = arr@;
        assert(mid.subrange(m as int, n as int) =~= old(arr)@.subrange(m as int, n as int));
        resolve_range(arr, m, n, rest, offset);
    } else {
        assert(old(arr)@.subrange(0, n as int) =~= old(arr)@);
        resolve_range(arr, 0, n, first, 0);
    }
    assert(arr@ =~= replaced(first@, rest@, lead, old(arr)@));
}

/// Replaces the references of each nested array of `subs`, front to back.
fn renumber_values_each(
    subs: &mut Vec<NestedArray<Option<usize>>>,
    first: &mut IdRemap,
    rest: &mut IdRemap,
    offset: usize,
    lead: bool,
)
    requires
        old(first).wf(),
        old(rest).wf(),
        offset == 0 || old(rest)@.len() + NestedArray::Nested(*old(subs))@.rest_ids(lead).len()
            + offset <= usize::MAX,
    ensures
        final(first).wf(),
        final(rest).wf(),
        final(first)@ == resolve_all(
            old(first)@,
            NestedArray::Nested(*old(subs))@.first_ids(lead),
            0,
        ),
        final(rest)@ == resolve_all(
            old(rest)@,
            NestedArray::Nested(*old(subs))@.rest_ids(lead),
            offset,
        ),
        NestedArray::Nested(*final(subs))@ == NestedArray::Nested(*old(subs))@.replaced(
            final(first)@,
            final(rest)@,
            lead,
        ),
    decreases *old(subs),
{
    let n = subs.len();
    let ghost cs0 = NestedArray::Nested(*old(subs))@->Nodes_0;
    let ghost f0 = first@;
    let ghost r0 = rest@;
    let ghost gf = first_ids_fn(lead);
    let ghost gr = rest_ids_fn(lead);
    let mut i: usize = 0;
    proof {
        first.lemma_unique();
        rest.lemma_unique();
        lemma_view_nested(*old(subs));
    }
    while i < n
        invariant
            i <= n,
            n == old(subs)@.len(),
            subs@.len() == n,
            cs0 == NestedArray::Nested(*old(subs))@->Nodes_0,
            cs0.len() == n,
            forall|j: int| 0 <= j < n ==> #[trigger] cs0[j] == old(subs)@[j]@,
            gf == first_ids_fn(lead),
            gr == rest_ids_fn(lead),
            f0 == old(first)@,
            r0 == old(rest)@,
            keys_unique(f0),
            keys_unique(r0),
            first.wf(),
            rest.wf(),
            offset == 0 || r0.len() + gather(lists_upto(cs0, n as nat), gr).len() + offset
                <= usize::MAX,
            first@ == resolve_all(f0, gather(lists_upto(cs0, i as nat), gf), 0),
            rest@ == resolve_all(r0, gather(lists_upto(cs0, i as nat), gr), offset),
            rest@.len() <= r0.len() + gather(lists_upto(cs0, i as nat), gr).len(),
            forall|j: int| i <= j < n ==> subs@[j] == old(subs)@[j],
            forall|j: int|
                0 <= j < i ==> (#[trigger] subs@[j])@ == cs0[j].replaced(first@, rest@, lead)
                    && covers(first@, cs0[j].first_ids(lead)) && covers(
                    rest@,
                    cs0[j].rest_ids(lead),
                ),
        decreases n - i,
    {
        let ghost fb = first@;
        let ghost rb = rest@;
        let ghost c = cs0[i as int];
        proof {
            first.lemma_unique();
            rest.lemma_unique();
            lemma_gather_upto_step(cs0, i as nat, gf);
            lemma_gather_upto_step(cs0, i as nat, gr);
            lemma_gather_upto_len(cs0, (i + 1) as nat, n as nat, gr);
            assert(cs0[i as int] == old(subs)@[i as int]@);
        }
        subs[i].renumber_values(first, rest, offset, lead);
        proof {
            lemma_resolve_all(r0, gather(lists_upto(cs0, i as nat), gr), offset);
            lemma_resolve_all(fb, c.first_ids(lead), 0);
            lemma_resolve_all(rb, c.rest_ids(lead), offset);
            lemma_resolve_all_concat(f0, gather(lists_upto(cs0, i as nat), gf), c.first_ids(lead), 0);
            lemma_resolve_all_concat(
                r0,
                gather(lists_upto(cs0, i as nat), gr),
                c.rest_ids(lead),
                offset,
            );
            assert forall|j: int| 0 <= j < i + 1 implies (#[trigger] subs@[j])@ == cs0[j].replaced(
                first@,
                rest@,
                lead,
            ) && covers(first@, cs0[j].first_ids(lead)) && covers(rest@, cs0[j].rest_ids(lead)) by {
                if j < i {
                    lemma_replaced_stable(cs0[j], lead, fb, rb, first@, rest@);
                }
            }
        }
        i += 1;
    }
    proof {
        lemma_view_nested(*subs);
        let done = NestedArray::Nested(*subs)@->Nodes_0;
        let want = NestedArray::Nested(*old(subs))@.replaced(first@, rest@, lead)->Nodes_0;
        assert(done =~= want);
    }
}

impl NestedArray<Option<usize>> {
    /// Replaces every reference that is present, in document order. Without
    /// `lead`, all go through `first`. With `lead`, the first place of each
    /// list goes through `first` and the other places through `rest`. A
    /// reference that its table has recorded is replaced by the recorded id;
    /// one seen for the first time gets the next free id: `len` in `first`,
    /// `len + offset` in `rest`.
    pub fn renumber_values(
        &mut self,
        first: &mut IdRemap,
        rest: &mut IdRemap,
        offset: usize,
        lead: bool,
    )
        requires
            old(first).wf(),
            old(rest).wf(),
            offset == 0 || old(rest)@.len() + old(self)@.rest_ids(lead).len() + offset
                <= usize::MAX,
        ensures
            final(first).wf(),
            final(rest).wf(),
            final(first)@ == resolve_all(old(first)@, old(self)@.first_ids(lead), 0),
            final(rest)@ == resolve_all(old(rest)@, old(self)@.rest_ids(lead), offset),
            final(self)@ == old(self)@.replaced(final(first)@, final(rest)@, lead),
        decreases *old(self),
    {
        match self {
            NestedArray::Indices(arr) => {
                proof {
                    lemma_view_indices(*arr, first_ids_fn(lead));
                    lemma_view_indices(*arr, rest_ids_fn(lead));
                }
                renumber_values_list(arr, first, rest, offset, lead);
            },
            NestedArray::Nested(subs) => {
                renumber_values_each(subs, first, rest, offset, lead);
            },
        }
    }
}

/// Counts the references of one list that go through the second table.
fn list_rest_count(arr: &Vec<Option<usize>>, lead: bool) -> (c: usize)
    ensures
        c == rest_ids(lead, arr@).len(),
{
    if !lead {
        return 0;
    }
    let n = arr.len();
    if n == 0 {
        assert(arr@.subrange(0, 0) =~= Seq::<Option<usize>>::empty());
        return 0;
    }
    let mut c: usize = 0;
    let mut i: usize = 1;
    assert(arr@.subrange(1, 1) =~= Seq::<Option<usize>>::empty());
    while i < n
        invariant
            1 <= i <= n,
            n == arr@.len(),
            c <= i,
            c == somes(arr@.subrange(1, i as int)).len(),
        decreases n - i,
    {
        proof {
            lemma_somes_step(arr@, 1, i as int);
        }
        if arr[i].is_some() {
            c += 1;
        }
        i += 1;
    }
    c
}

/// Counts the references of each of `subs` that go through the second
/// table.
fn each_rest_count(subs: &Vec<NestedArray<Option<usize>>>, lead: bool) -> (c: usize)
    ensures
        c == capped(NestedArray::Nested(*subs)@.rest_ids(lead).len() as int),
    decreases subs,
{
    let n = subs.len();
    let ghost cs = NestedArray::Nested(*subs)@->Nodes_0;
    let ghost g = rest_ids_fn(lead);
    let mut c: usize = 0;
    let mut i: usize = 0;
    proof {
        lemma_view_nested(*subs);
    }
    while i < n
        invariant
            i <= n,
            n == subs@.len(),
            cs == NestedArray::Nested(*subs)@->Nodes_0,
            cs.len() == n,
            g == rest_ids_fn(lead),
            forall|j: int| 0 <= j < n ==> #[trigger] cs[j] == subs@[j]@,
            c == capped(gather(lists_upto(cs, i as nat), g).len() as int),
        decreases n - i,
    {
        proof {
            lemma_gather_upto_step(cs, i as nat, g);
            assert(cs[i as int] == subs@[i as int]@);
        }
        let more = subs[i].rest_count(lead);
        c = add_capped(c, more);
        i += 1;
    }
    c
}

impl NestedArray<Option<usize>> {
    /// Counts the references that go through the second table; the count is
    /// capped at the greatest number that the machine counts to.
    pub fn rest_count(&self, lead: bool) -> (c: usize)
        ensures
            c == capped(self@.rest_ids(lead).len() as int),
        decreases self,
    {
        match self {
            NestedArray::Indices(arr) => {
                proof {
                    lemma_view_indices(*arr, rest_ids_fn(lead));
                }
                list_rest_count(arr, lead)
            },
            NestedArray::Nested(subs) => each_rest_count(subs, lead),
        }
    }
}

/// The references of a list whose items are replaced through `t` are the
/// references of the list, each replaced through `t`.
pub proof fn lemma_somes_map(s: Seq<Option<usize>>, s2: Seq<Option<usize>>, t: Pairs)
    requires
        s2.len() == s.len(),
        forall|i: int| 0 <= i < s.len() ==> #[trigger] s2[i] == replaced_one(t, s[i]),
    ensures
        somes(s2) == somes(s).map_values(new_of_fn(t)),
    decreases s.len(),
{
    if s.len() > 0 {
        assert forall|i: int| 0 <= i < s.drop_last().len() implies #[trigger] s2.drop_last()[i]
            == replaced_one(t, s.drop_last()[i]) by {
            assert(s2.drop_last()[i] == s2[i]);
            assert(s.drop_last()[i] == s[i]);
        }
        lemma_somes_map(s.drop_last(), s2.drop_last(), t);
        assert(s2[s.len() - 1] == replaced_one(t, s[s.len() - 1]));
    }
    assert(somes(s2) =~= somes(s).map_values(new_of_fn(t)));
}

/// The references of a replaced list are the references of the list, each
/// replaced through its table.
pub proof fn lemma_list_ids_replaced(a: Pairs, b: Pairs, lead: bool, s: Seq<Option<usize>>)
    ensures
        first_ids(lead, replaced(a, b, lead, s)) == first_ids(lead, s).map_values(new_of_fn(a)),
        rest_ids(lead, replaced(a, b, lead, s)) == rest_ids(lead, s).map_values(new_of_fn(b)),
{
    let r = replaced(a, b, lead, s);
    if lead {
        let e = lead_end(s);
        let n = s.len() as int;
        lemma_somes_map(s.subrange(0, e), r.subrange(0, e), a);
        lemma_somes_map(s.subrange(e, n), r.subrange(e, n), b);
    } else {
        lemma_somes_map(s, r, a);
        assert(Seq::<usize>::empty().map_values(new_of_fn(b)) =~= Seq::<usize>::empty());
    }
}

/// The references of a replaced tree are the references of the tree, each
/// replaced through its table.
pub proof fn lemma_tree_ids_replaced(t: Tree<Option<usize>>, a: Pairs, b: Pairs, lead: bool)
    ensures
        t.replaced(a, b, lead).first_ids(lead) == t.first_ids(lead).map_values(new_of_fn(a)),
        t.replaced(a, b, lead).rest_ids(lead) == t.rest_ids(lead).map_values(new_of_fn(b)),
{
    let f = replaced_fn(a, b, lead);
    lemma_rewrite_lists(t, f);
    let ls = t.lists();
    let ls2 = t.replaced(a, b, lead).lists();
    assert forall|k: int| 0 <= k < ls.len() implies first_ids_fn(lead)(#[trigger] ls2[k])
        == first_ids_fn(lead)(ls[k]).map_values(new_of_fn(a)) && rest_ids_fn(lead)(ls2[k])
        == rest_ids_fn(lead)(ls[k]).map_values(new_of_fn(b)) by {
        lemma_list_ids_replaced(a, b, lead, ls[k]);
        assert(ls2[k] == replaced(a, b, lead, ls[k]));
    }
    lemma_gather_map(ls, ls2, first_ids_fn(lead), new_of_fn(a));
    lemma_gather_map(ls, ls2, rest_ids_fn(lead), new_of_fn(b));
}

} // verus!
