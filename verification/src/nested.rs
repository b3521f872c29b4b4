//! Nested arrays of indices: the boundary of a geometry, and the arrays of
//! material and texture references that run parallel to it.

use crate::remap::{covers, extends, has_old, lemma_resolve_all, lemma_resolve_all_concat, lemma_resolve_one, new_of, resolve_all, IdRemap, Pairs};
use vstd::prelude::*;

verus! {

/// An array of indices, or an array of nested arrays.
#[derive(Debug, PartialEq, Eq)]
pub enum NestedArray<T> {
    Indices(Vec<T>),
    Nested(Vec<NestedArray<T>>),
}

/// The boundary of a geometry: vertex indices, nested by the geometry's type.
pub type Boundaries = NestedArray<u32>;

/// What a nested array holds: its lists of leaves and how they nest.
pub enum Tree<T> {
    Leaves(Seq<T>),
    Nodes(Seq<Tree<T>>),
}

impl<T> DeepView for NestedArray<T> {
    type V = Tree<T>;

    open spec fn deep_view(&self) -> Tree<T> {
        tree_of(*self)
    }
}

impl<T> View for NestedArray<T> {
    type V = Tree<T>;

    open spec fn view(&self) -> Tree<T> {
        tree_of(*self)
    }
}

/// What `a` holds.
pub open spec fn tree_of<T>(a: NestedArray<T>) -> Tree<T>
    decreases a,
{
    match a {
        NestedArray::Indices(v) => Tree::Leaves(v@),
        NestedArray::Nested(subs) => Tree::Nodes(trees_of(subs@)),
    }
}

/// What each of `subs` holds.
pub open spec fn trees_of<T>(subs: Seq<NestedArray<T>>) -> Seq<Tree<T>>
    decreases subs,
{
    if subs.len() == 0 {
        Seq::empty()
    } else {
        trees_of(subs.drop_last()).push(tree_of(subs.last()))
    }
}

/// `trees_of` goes part by part.
pub proof fn lemma_trees_of<T>(subs: Seq<NestedArray<T>>)
    ensures
        trees_of(subs).len() == subs.len(),
        forall|i: int| 0 <= i < subs.len() ==> (#[trigger] trees_of(subs)[i]) == tree_of(subs[i]),
    decreases subs.len(),
{
    if subs.len() > 0 {
        lemma_trees_of(subs.drop_last());
    }
}

impl<T> Tree<T> {
    /// The lists of leaves, in document order.
    pub open spec fn lists(self) -> Seq<Seq<T>>
        decreases self,
    {
        match self {
            Tree::Leaves(s) => seq![s],
            Tree::Nodes(cs) => lists_upto(cs, cs.len()),
        }
    }

    /// The same nesting, with each list of leaves replaced by `f` of it.
    pub open spec fn rewrite(self, f: spec_fn(Seq<T>) -> Seq<T>) -> Tree<T>
        decreases self,
    {
        match self {
            Tree::Leaves(s) => Tree::Leaves(f(s)),
            Tree::Nodes(cs) => Tree::Nodes(
                Seq::new(cs.len(), |i: int| if 0 <= i < cs.len() { cs[i].rewrite(f) } else { cs[i] }),
            ),
        }
    }
}

/// The lists of leaves of the first `n` trees of `cs`.
pub open spec fn lists_upto<T>(cs: Seq<Tree<T>>, n: nat) -> Seq<Seq<T>>
    decreases cs, n,
{
    if n == 0 || n > cs.len() {
        Seq::empty()
    } else {
        lists_upto(cs, (n - 1) as nat) + cs[n - 1].lists()
    }
}

impl<T: Copy> Clone for NestedArray<T> {
    fn clone(&self) -> (res: Self)
        ensures
            res@ == self@,
        decreases self,
    {
        match self {
            NestedArray::Indices(v) => {
                let mut out: Vec<T> = Vec::new();
                let mut i: usize = 0;
                while i < v.len()
                    invariant
                        i <= v.len(),
                        out@ == v@.take(i as int),
                    decreases v.len() - i,
                {
                    out.push(v[i]);
                    i += 1;
                }
                assert(v@.take(v@.len() as int) == v@);
                NestedArray::Indices(out)
            },
            NestedArray::Nested(subs) => {
                let mut out: Vec<NestedArray<T>> = Vec::new();
                let mut i: usize = 0;
                while i < subs.len()
                    invariant
                        i <= subs.len(),
                        out@.len() == i,
                        forall|j: int| 0 <= j < i ==> out@[j]@ == subs@[j]@,
                        decreases_to!(self => subs),
                    decreases subs.len() - i,
                {
                    assert(decreases_to!(subs => subs[i as int]));
                    out.push(subs[i].clone());
                    i += 1;
                }
                let res = NestedArray::Nested(out);
                assert(res@ == self@) by {
                    lemma_view_nested(out);
                    lemma_view_nested(*subs);
                    assert(res@->Nodes_0 =~= self@->Nodes_0);
                }
                res
            },
        }
    }
}

/// What a nested array of nested arrays holds: the trees of its parts.
pub proof fn lemma_view_nested<T>(subs: Vec<NestedArray<T>>)
    ensures
        NestedArray::Nested(subs)@ is Nodes,
        NestedArray::Nested(subs)@->Nodes_0.len() == subs@.len(),
        forall|i: int|
            0 <= i < subs@.len() ==> (#[trigger] NestedArray::Nested(subs)@->Nodes_0[i]) == subs@[i]@,
{
    lemma_trees_of(subs@);
}

/// What an array of indices holds: its one list.
pub proof fn lemma_view_indices<T>(v: Vec<T>, g: spec_fn(Seq<T>) -> Seq<usize>)
    ensures
        NestedArray::Indices(v)@ == Tree::Leaves(v@),
        NestedArray::Indices(v)@.lists() == seq![v@],
        gather(NestedArray::Indices(v)@.lists(), g) == g(v@),
{
    let ls = seq![v@];
    assert(ls.drop_last() =~= Seq::<Seq<T>>::empty());
    assert(gather(ls.drop_last(), g) =~= Seq::<usize>::empty());
    assert(gather(ls, g) =~= g(v@));
}

/// The ids that `g` draws from each item of `ls`, item after item.
pub open spec fn gather<X>(ls: Seq<X>, g: spec_fn(X) -> Seq<usize>) -> Seq<usize>
    decreases ls.len(),
{
    if ls.len() == 0 {
        Seq::empty()
    } else {
        gather(ls.drop_last(), g) + g(ls.last())
    }
}

/// Gathering from two runs of items is gathering from each.
pub proof fn lemma_gather_concat<X>(a: Seq<X>, b: Seq<X>, g: spec_fn(X) -> Seq<usize>)
    ensures
        gather(a + b, g) == gather(a, g) + gather(b, g),
    decreases b.len(),
{
    if b.len() == 0 {
        assert(a + b =~= a);
        assert(gather(a, g) + gather(b, g) =~= gather(a, g));
    } else {
        lemma_gather_concat(a, b.drop_last(), g);
        assert((a + b).drop_last() =~= a + b.drop_last());
        assert((a + b).last() == b.last());
        assert(gather(a + b, g) =~= gather(a, g) + gather(b, g));
    }
}

/// Gathering from one item more adds what `g` draws from it.
pub proof fn lemma_gather_take<X>(ls: Seq<X>, g: spec_fn(X) -> Seq<usize>, i: int)
    requires
        0 <= i < ls.len(),
    ensures
        gather(ls.take(i + 1), g) == gather(ls.take(i), g) + g(ls[i]),
        gather(ls.take(i), g).len() <= gather(ls.take(i + 1), g).len(),
{
    assert(ls.take(i + 1).drop_last() =~= ls.take(i));
}

/// A prefix gives no more than the whole.
pub proof fn lemma_gather_take_len<X>(ls: Seq<X>, g: spec_fn(X) -> Seq<usize>, i: int)
    requires
        0 <= i <= ls.len(),
    ensures
        gather(ls.take(i), g).len() <= gather(ls, g).len(),
    decreases ls.len() - i,
{
    if i < ls.len() {
        lemma_gather_take(ls, g, i);
        lemma_gather_take_len(ls, g, i + 1);
    } else {
        assert(ls.take(i) =~= ls);
    }
}

/// What `g` draws from one of the items is among what is gathered.
pub proof fn lemma_gather_has<X>(ls: Seq<X>, g: spec_fn(X) -> Seq<usize>, k: int, i: int)
    requires
        0 <= k < ls.len(),
        0 <= i < g(ls[k]).len(),
    ensures
        gather(ls, g).contains(g(ls[k])[i]),
    decreases ls.len(),
{
    let front = gather(ls.drop_last(), g);
    if k == ls.len() - 1 {
        assert(gather(ls, g)[front.len() + i] == g(ls[k])[i]);
    } else {
        lemma_gather_has(ls.drop_last(), g, k, i);
        let j = choose|j: int| 0 <= j < front.len() && front[j] == g(ls[k])[i];
        assert(gather(ls, g)[j] == g(ls[k])[i]);
    }
}

/// The first `n + 1` trees give what the first `n` give, then what the next
/// one gives.
pub proof fn lemma_gather_upto_step<T>(cs: Seq<Tree<T>>, n: nat, g: spec_fn(Seq<T>) -> Seq<usize>)
    requires
        n < cs.len(),
    ensures
        gather(lists_upto(cs, n + 1), g) == gather(lists_upto(cs, n), g) + gather(cs[n as int].lists(), g),
{
    lemma_gather_concat(lists_upto(cs, n), cs[n as int].lists(), g);
}

/// What `g` draws from one of the first `n` trees is among what it draws
/// from all of them.
pub proof fn lemma_gather_upto_has<T>(
    cs: Seq<Tree<T>>,
    n: nat,
    g: spec_fn(Seq<T>) -> Seq<usize>,
    j: int,
    i: int,
)
    requires
        0 <= j < n <= cs.len(),
        0 <= i < gather(cs[j].lists(), g).len(),
    ensures
        gather(lists_upto(cs, n), g).contains(gather(cs[j].lists(), g)[i]),
    decreases n,
{
    let front = gather(lists_upto(cs, (n - 1) as nat), g);
    lemma_gather_upto_step(cs, (n - 1) as nat, g);
    let x = gather(cs[j].lists(), g)[i];
    if j == n - 1 {
        assert(gather(lists_upto(cs, n), g)[front.len() + i] == x);
    } else {
        lemma_gather_upto_has(cs, (n - 1) as nat, g, j, i);
        let p = choose|p: int| 0 <= p < front.len() && front[p] == x;
        assert(gather(lists_upto(cs, n), g)[p] == x);
    }
}

/// The first `n` trees give no more than the first `m`, if `n <= m`.
pub proof fn lemma_gather_upto_len<T>(
    cs: Seq<Tree<T>>,
    n: nat,
    m: nat,
    g: spec_fn(Seq<T>) -> Seq<usize>,
)
    requires
        n <= m <= cs.len(),
    ensures
        gather(lists_upto(cs, n), g).len() <= gather(lists_upto(cs, m), g).len(),
    decreases m - n,
{
    if n < m {
        lemma_gather_upto_step(cs, n, g);
        lemma_gather_upto_len(cs, n + 1, m, g);
    }
}

/// Each list of leaves of one of the first `n` trees is among theirs.
pub proof fn lemma_lists_upto_has<T>(cs: Seq<Tree<T>>, n: nat, j: int, k: int)
    requires
        0 <= j < n <= cs.len(),
        0 <= k < cs[j].lists().len(),
    ensures
        lists_upto(cs, n).contains(cs[j].lists()[k]),
    decreases n,
{
    let front = lists_upto(cs, (n - 1) as nat);
    if j == n - 1 {
        assert(lists_upto(cs, n)[front.len() + k] == cs[j].lists()[k]);
    } else {
        lemma_lists_upto_has(cs, (n - 1) as nat, j, k);
        let p = choose|p: int| 0 <= p < front.len() && front[p] == cs[j].lists()[k];
        assert(lists_upto(cs, n)[p] == cs[j].lists()[k]);
    }
}

/// Two rewritings that agree on every list of leaves of a tree give the same
/// tree.
pub proof fn lemma_rewrite_same<T>(t: Tree<T>, f: spec_fn(Seq<T>) -> Seq<T>, g: spec_fn(Seq<T>) -> Seq<T>)
    requires
        forall|s: Seq<T>| #[trigger] t.lists().contains(s) ==> f(s) == g(s),
    ensures
        t.rewrite(f) == t.rewrite(g),
    decreases t,
{
    match t {
        Tree::Leaves(s) => {
            assert(t.lists()[0] == s);
            assert(t.lists().contains(s));
        },
        Tree::Nodes(cs) => {
            assert forall|i: int| 0 <= i < cs.len() implies cs[i].rewrite(f) == cs[i].rewrite(g) by {
                assert forall|s: Seq<T>| #[trigger] cs[i].lists().contains(s) implies f(s) == g(s) by {
                    let k = choose|k: int| 0 <= k < cs[i].lists().len() && cs[i].lists()[k] == s;
                    lemma_lists_upto_has(cs, cs.len(), i, k);
                    assert(t.lists().contains(s));
                }
                lemma_rewrite_same(cs[i], f, g);
            }
            assert(t.rewrite(f)->Nodes_0 =~= t.rewrite(g)->Nodes_0);
        },
    }
}

/// The vertex indices of one list, as ids.
pub open spec fn vertex_ids(s: Seq<u32>) -> Seq<usize> {
    Seq::new(s.len(), |i: int| s[i] as usize)
}

/// [`vertex_ids`], as a value.
pub open spec fn vertex_ids_fn() -> spec_fn(Seq<u32>) -> Seq<usize> {
    |s: Seq<u32>| vertex_ids(s)
}

/// One list, each index replaced by what `t` records for it.
pub open spec fn renumbered(t: Pairs, s: Seq<u32>) -> Seq<u32> {
    Seq::new(s.len(), |i: int| new_of(t, s[i] as usize) as u32)
}

/// [`renumbered`] by `t`, as a value.
pub open spec fn renumbered_fn(t: Pairs) -> spec_fn(Seq<u32>) -> Seq<u32> {
    |s: Seq<u32>| renumbered(t, s)
}

/// One list, each index raised by `k`.
pub open spec fn shifted(k: int, s: Seq<u32>) -> Seq<u32> {
    Seq::new(s.len(), |i: int| (s[i] + k) as u32)
}

/// [`shifted`] by `k`, as a value.
pub open spec fn shifted_fn(k: int) -> spec_fn(Seq<u32>) -> Seq<u32> {
    |s: Seq<u32>| shifted(k, s)
}

impl Tree<u32> {
    /// All vertex indices, in document order.
    pub open spec fn vertex_ids(self) -> Seq<usize> {
        gather(self.lists(), vertex_ids_fn())
    }

    /// The same boundary, each index replaced by what `t` records for it.
    pub open spec fn renumbered(self, t: Pairs) -> Tree<u32> {
        self.rewrite(renumbered_fn(t))
    }

    /// The same boundary, each index raised by `k`.
    pub open spec fn shifted(self, k: int) -> Tree<u32> {
        self.rewrite(shifted_fn(k))
    }

    /// Every index is below `bound`.
    pub open spec fn below(self, bound: int) -> bool {
        forall|i: int| 0 <= i < self.vertex_ids().len() ==> #[trigger] self.vertex_ids()[i] < bound
    }
}

/// A table that grows does not change how a boundary that it covers is
/// renumbered.
pub proof fn lemma_renumbered_stable(t: Tree<u32>, a: Pairs, b: Pairs)
    requires
        covers(a, t.vertex_ids()),
        extends(a, b),
    ensures
        t.renumbered(a) == t.renumbered(b),
        covers(b, t.vertex_ids()),
{
    assert forall|s: Seq<u32>| #[trigger] t.lists().contains(s) implies renumbered_fn(a)(s)
        == renumbered_fn(b)(s) by {
        let k = choose|k: int| 0 <= k < t.lists().len() && t.lists()[k] == s;
        assert forall|i: int| 0 <= i < s.len() implies new_of(a, s[i] as usize) == new_of(
            b,
            s[i] as usize,
        ) by {
            assert(vertex_ids_fn()(s)[i] == s[i] as usize);
            lemma_gather_has(t.lists(), vertex_ids_fn(), k, i);
            let j = choose|j: int|
                0 <= j < t.vertex_ids().len() && t.vertex_ids()[j] == vertex_ids_fn()(s)[i];
            assert(has_old(a, t.vertex_ids()[j]));
        }
        assert(renumbered(a, s) =~= renumbered(b, s));
    }
    lemma_rewrite_same(t, renumbered_fn(a), renumbered_fn(b));
    assert forall|i: int| 0 <= i < t.vertex_ids().len() implies has_old(b, #[trigger] t.vertex_ids()[i]) by {
        assert(has_old(a, t.vertex_ids()[i]));
    }
}

/// Renumbers one list of vertex indices through `table`.
fn renumber_list(arr: &mut Vec<u32>, table: &mut IdRemap, offset: usize)
    requires
        old(table).wf(),
        offset == 0 || old(table)@.len() + old(arr)@.len() + offset <= usize::MAX,
    ensures
        final(table).wf(),
        final(table)@ == resolve_all(old(table)@, vertex_ids(old(arr)@), offset),
        final(arr)@ == renumbered(final(table)@, old(arr)@),
{
    let n = arr.len();
    let ghost ids = vertex_ids(old(arr)@);
    let ghost t0 = table@;
    let mut i: usize = 0;
    proof {
        table.lemma_unique();
        assert(ids.take(0) =~= Seq::<usize>::empty());
    }
    while i < n
        invariant
            i <= n,
            n == old(arr)@.len(),
            arr@.len() == n,
            ids == vertex_ids(old(arr)@),
            t0 == old(table)@,
            crate::remap::keys_unique(t0),
            table.wf(),
            offset == 0 || t0.len() + n + offset <= usize::MAX,
            table@ == resolve_all(t0, ids.take(i as int), offset),
            table@.len() <= t0.len() + i,
            forall|j: int| i <= j < n ==> arr@[j] == old(arr)@[j],
            forall|j: int|
                0 <= j < i ==> has_old(table@, #[trigger] ids[j]) && arr@[j] == new_of(table@, ids[j]) as u32,
        decreases n - i,
    {
        let id = arr[i] as usize;
        let ghost before = table@;
        let new = table.resolve(id, offset);
        arr[i] = #[verifier::truncate] (new as u32);
        proof {
            assert(ids.take(i + 1).drop_last() =~= ids.take(i as int));
            assert(ids.take(i + 1).last() == id);
            lemma_resolve_all(t0, ids.take(i as int), offset);
            lemma_resolve_one(before, id, offset);
            assert forall|j: int| 0 <= j < i + 1 implies has_old(table@, #[trigger] ids[j]) && arr@[j]
                == new_of(table@, ids[j]) as u32 by {
                if j < i {
                    assert(has_old(before, ids[j]));
                }
            }
        }
        i += 1;
    }
    proof {
        assert(ids.take(n as int) =~= ids);
        assert forall|j: int| 0 <= j < n implies arr@[j] == renumbered(table@, old(arr)@)[j] by {
            assert(ids[j] == old(arr)@[j] as usize);
        }
        assert(arr@ =~= renumbered(table@, old(arr)@));
    }
}


/// Renumbers each nested array of `subs` through `table`, front to back.
fn renumber_each(subs: &mut Vec<NestedArray<u32>>, table: &mut IdRemap, offset: usize)
    requires
        old(table).wf(),
        offset == 0 || old(table)@.len() + NestedArray::Nested(*old(subs))@.vertex_ids().len()
            + offset <= usize::MAX,
    ensures
        final(table).wf(),
        final(table)@ == resolve_all(
            old(table)@,
            NestedArray::Nested(*old(subs))@.vertex_ids(),
            offset,
        ),
        NestedArray::Nested(*final(subs))@ == NestedArray::Nested(*old(subs))@.renumbered(
            final(table)@,
        ),
    decreases *old(subs),
{
    let n = subs.len();
    let ghost cs0 = NestedArray::Nested(*old(subs))@->Nodes_0;
    let ghost t0 = table@;
    let ghost g = vertex_ids_fn();
    let mut i: usize = 0;
    proof {
        table.lemma_unique();
        lemma_view_nested(*old(subs));
    }
    while i < n
        invariant
            i <= n,
            n == old(subs)@.len(),
            subs@.len() == n,
            cs0 == NestedArray::Nested(*old(subs))@->Nodes_0,
            cs0.len() == n,
            forall|j: int| 0 <= j < n ==> #[trigger] cs0[j] == old(subs)@[j]@,
            g == vertex_ids_fn(),
            t0 == old(table)@,
            crate::remap::keys_unique(t0),
            table.wf(),
            offset == 0 || t0.len() + gather(lists_upto(cs0, n as nat), g).len() + offset
                <= usize::MAX,
            table@ == resolve_all(t0, gather(lists_upto(cs0, i as nat), g), offset),
            table@.len() <= t0.len() + gather(lists_upto(cs0, i as nat), g).len(),
            forall|j: int| i <= j < n ==> subs@[j] == old(subs)@[j],
            forall|j: int|
                0 <= j < i ==> (#[trigger] subs@[j])@ == cs0[j].renumbered(table@) && covers(
                    table@,
                    cs0[j].vertex_ids(),
                ),
        decreases n - i,
    {
        let ghost before = table@;
        let ghost ids = cs0[i as int].vertex_ids();
        proof {
            table.lemma_unique();
            lemma_gather_upto_step(cs0, i as nat, g);
            lemma_gather_upto_len(cs0, (i + 1) as nat, n as nat, g);
            assert(cs0[i as int] == old(subs)@[i as int]@);
        }
        subs[i].renumber(table, offset);
        proof {
            lemma_resolve_all(t0, gather(lists_upto(cs0, i as nat), g), offset);
            lemma_resolve_all(before, ids, offset);
            lemma_resolve_all_concat(t0, gather(lists_upto(cs0, i as nat), g), ids, offset);
            assert forall|j: int| 0 <= j < i + 1 implies (#[trigger] subs@[j])@ == cs0[j].renumbered(
                table@,
            ) && covers(table@, cs0[j].vertex_ids()) by {
                if j < i {
                    lemma_renumbered_stable(cs0[j], before, table@);
                }
            }
        }
        i += 1;
    }
    proof {
        lemma_view_nested(*subs);
        let done = NestedArray::Nested(*subs)@->Nodes_0;
        let want = NestedArray::Nested(*old(subs))@.renumbered(table@)->Nodes_0;
        assert(done =~= want);
    }
}

/// Shifts each index of one list by `offset`.
fn shift_list(arr: &mut Vec<u32>, offset: usize)
    requires
        forall|i: int| 0 <= i < old(arr)@.len() ==> old(arr)@[i] + offset <= u32::MAX,
    ensures
        final(arr)@ == shifted(offset as int, old(arr)@),
{
    let n = arr.len();
    let k: u32 = #[verifier::truncate] (offset as u32);
    let mut i: usize = 0;
    while i < n
        invariant
            i <= n,
            n == old(arr)@.len(),
            arr@.len() == n,
            k == offset as u32,
            forall|j: int| 0 <= j < n ==> old(arr)@[j] + offset <= u32::MAX,
            forall|j: int| i <= j < n ==> arr@[j] == old(arr)@[j],
            forall|j: int| 0 <= j < i ==> arr@[j] == old(arr)@[j] + offset,
        decreases n - i,
    {
        assert(old(arr)@[i as int] + offset <= u32::MAX);
        arr[i] = arr[i] + k;
        i += 1;
    }
    assert(arr@ =~= shifted(offset as int, old(arr)@));
}

/// Shifts each nested array of `subs` by `offset`.
fn shift_each(subs: &mut Vec<NestedArray<u32>>, offset: usize)
    requires
        NestedArray::Nested(*old(subs))@.below(u32::MAX + 1 - offset),
    ensures
        NestedArray::Nested(*final(subs))@ == NestedArray::Nested(*old(subs))@.shifted(
            offset as int,
        ),
    decreases *old(subs),
{
    let n = subs.len();
    let ghost whole = NestedArray::Nested(*old(subs))@;
    let ghost cs0 = whole->Nodes_0;
    let mut i: usize = 0;
    proof {
        lemma_view_nested(*old(subs));
    }
    while i < n
        invariant
            i <= n,
            n == old(subs)@.len(),
            subs@.len() == n,
            whole == NestedArray::Nested(*old(subs))@,
            whole is Nodes,
            cs0 == whole->Nodes_0,
            cs0.len() == n,
            forall|j: int| 0 <= j < n ==> #[trigger] cs0[j] == old(subs)@[j]@,
            whole.below(u32::MAX + 1 - offset),
            forall|j: int| i <= j < n ==> subs@[j] == old(subs)@[j],
            forall|j: int| 0 <= j < i ==> (#[trigger] subs@[j])@ == cs0[j].shifted(offset as int),
        decreases n - i,
    {
        proof {
            assert(cs0[i as int] == old(subs)@[i as int]@);
            let c = cs0[i as int];
            assert forall|k: int| 0 <= k < c.vertex_ids().len() implies #[trigger] c.vertex_ids()[k]
                < u32::MAX + 1 - offset by {
                lemma_gather_upto_has(cs0, n as nat, vertex_ids_fn(), i as int, k);
                let p = choose|p: int|
                    0 <= p < whole.vertex_ids().len() && whole.vertex_ids()[p] == c.vertex_ids()[k];
                assert(whole.vertex_ids()[p] < u32::MAX + 1 - offset);
            }
        }
        subs[i].offset_geometry_boundaries(offset);
        i += 1;
    }
    proof {
        lemma_view_nested(*subs);
        let done = NestedArray::Nested(*subs)@->Nodes_0;
        let want = whole.shifted(offset as int)->Nodes_0;
        assert(done =~= want);
    }
}

impl NestedArray<u32> {
    /// Renumbers every index through `table`, in document order: an index
    /// that the table has recorded is replaced by its new id, and one that is
    /// seen for the first time gets the next free id, `len + offset`.
    pub fn renumber(&mut self, table: &mut IdRemap, offset: usize)
        requires
            old(table).wf(),
            offset == 0 || old(table)@.len() + old(self)@.vertex_ids().len() + offset
                <= usize::MAX,
        ensures
            final(table).wf(),
            final(table)@ == resolve_all(old(table)@, old(self)@.vertex_ids(), offset),
            final(self)@ == old(self)@.renumbered(final(table)@),
        decreases *old(self),
    {
        match self {
            NestedArray::Indices(arr) => {
                proof {
                    lemma_view_indices(*arr, vertex_ids_fn());
                }
                renumber_list(arr, table, offset);
            },
            NestedArray::Nested(subs) => {
                renumber_each(subs, table, offset);
            },
        }
    }

    /// Renumbers every index into a zero-based numbering without gaps, as
    /// far as `violdnew` started as one.
    pub fn update_indices_recursively(&mut self, violdnew: &mut IdRemap)
        requires
            old(violdnew).wf(),
        ensures
            final(violdnew).wf(),
            final(violdnew)@ == resolve_all(old(violdnew)@, old(self)@.vertex_ids(), 0),
            final(self)@ == old(self)@.renumbered(final(violdnew)@),
    {
        self.renumber(violdnew, 0);
    }

    /// Adds `offset` to every index.
    pub fn offset_geometry_boundaries(&mut self, offset: usize)
        requires
            old(self)@.below(u32::MAX + 1 - offset),
        ensures
            final(self)@ == old(self)@.shifted(offset as int),
        decreases *old(self),
    {
        match self {
            NestedArray::Indices(arr) => {
                proof {
                    lemma_view_indices(*arr, vertex_ids_fn());
                    assert forall|i: int| 0 <= i < arr@.len() implies arr@[i] + offset
                        <= u32::MAX by {
                        assert(old(self)@.vertex_ids()[i] == arr@[i] as usize);
                    }
                }
                shift_list(arr, offset);
            },
            NestedArray::Nested(subs) => {
                shift_each(subs, offset);
            },
        }
    }
}

/// Whatever is gathered was drawn from one of the items.
pub proof fn lemma_gather_from<X>(ls: Seq<X>, g: spec_fn(X) -> Seq<usize>, i: int) -> (w: (int, int))
    requires
        0 <= i < gather(ls, g).len(),
    ensures
        0 <= w.0 < ls.len(),
        0 <= w.1 < g(ls[w.0]).len(),
        gather(ls, g)[i] == g(ls[w.0])[w.1],
    decreases ls.len(),
{
    let front = gather(ls.drop_last(), g);
    if i < front.len() {
        let w = lemma_gather_from(ls.drop_last(), g, i);
        assert(ls.drop_last()[w.0] == ls[w.0]);
        w
    } else {
        (ls.len() - 1, i - front.len())
    }
}

/// The lists of leaves of the first `n` of the rewritten trees are the
/// rewritten lists of leaves of the first `n` trees.
pub proof fn lemma_rewrite_lists_upto<T>(cs: Seq<Tree<T>>, f: spec_fn(Seq<T>) -> Seq<T>, n: nat)
    requires
        n <= cs.len(),
    ensures
        lists_upto(Tree::Nodes(cs).rewrite(f)->Nodes_0, n) == lists_upto(cs, n).map_values(f),
    decreases cs, n,
{
    let cs2 = Tree::Nodes(cs).rewrite(f)->Nodes_0;
    if n == 0 {
        assert(lists_upto(cs2, n) =~= lists_upto(cs, n).map_values(f));
    } else {
        lemma_rewrite_lists_upto(cs, f, (n - 1) as nat);
        lemma_rewrite_lists(cs[n - 1], f);
        assert(cs2[n - 1] == cs[n - 1].rewrite(f));
        assert(lists_upto(cs2, n) =~= lists_upto(cs, n).map_values(f));
    }
}

/// The lists of leaves of a rewritten tree are the rewritten lists of
/// leaves of the tree.
pub proof fn lemma_rewrite_lists<T>(t: Tree<T>, f: spec_fn(Seq<T>) -> Seq<T>)
    ensures
        t.rewrite(f).lists() == t.lists().map_values(f),
    decreases t, 0nat,
{
    match t {
        Tree::Leaves(s) => {
            assert(t.rewrite(f).lists() =~= t.lists().map_values(f));
        },
        Tree::Nodes(cs) => {
            lemma_rewrite_lists_upto(cs, f, cs.len());
        },
    }
}

/// A boundary below `bound` that is shifted by `k` is below `bound + k`.
pub proof fn lemma_shifted_below(t: Tree<u32>, k: usize, bound: int)
    requires
        t.below(bound),
        t.below(u32::MAX + 1 - k),
    ensures
        t.shifted(k as int).below(bound + k),
{
    let r = t.shifted(k as int);
    lemma_rewrite_lists(t, shifted_fn(k as int));
    assert forall|i: int| 0 <= i < r.vertex_ids().len() implies #[trigger] r.vertex_ids()[i] < bound
        + k by {
        let w = lemma_gather_from(r.lists(), vertex_ids_fn(), i);
        let s = t.lists()[w.0];
        assert(r.lists()[w.0] == shifted(k as int, s));
        let leaf = s[w.1] as usize;
        assert(vertex_ids_fn()(s)[w.1] == leaf);
        lemma_gather_has(t.lists(), vertex_ids_fn(), w.0, w.1);
        let j = choose|j: int| 0 <= j < t.vertex_ids().len() && t.vertex_ids()[j] == leaf;
        assert(t.vertex_ids()[j] < bound);
        assert(t.vertex_ids()[j] < u32::MAX + 1 - k);
    }
}

/// A boundary below `bound` is below every greater bound.
pub proof fn lemma_below_more(t: Tree<u32>, bound: int, more: int)
    requires
        t.below(bound),
        bound <= more,
    ensures
        t.below(more),
{
    assert forall|i: int| 0 <= i < t.vertex_ids().len() implies #[trigger] t.vertex_ids()[i]
        < more by {
        assert(t.vertex_ids()[i] < bound);
    }
}

/// Every index of a boundary is one that an index can be.
pub proof fn lemma_below_limit(t: Tree<u32>)
    ensures
        t.below(u32::MAX + 1),
{
    assert forall|i: int| 0 <= i < t.vertex_ids().len() implies #[trigger] t.vertex_ids()[i]
        < u32::MAX + 1 by {
        let w = lemma_gather_from(t.lists(), vertex_ids_fn(), i);
        let s = t.lists()[w.0];
        assert(vertex_ids_fn()(s)[w.1] == s[w.1] as usize);
    }
}

/// Whether `a` records, for each of `ids`, a new id below `bound`.
pub open spec fn lands_below(a: Pairs, ids: Seq<usize>, bound: int) -> bool {
    forall|i: int| 0 <= i < ids.len() ==> new_of(a, #[trigger] ids[i]) < bound
}

/// A boundary renumbered through a table that sends each of its indices
/// below `bound` has every index below `bound`.
pub proof fn lemma_renumbered_within(t: Tree<u32>, a: Pairs, bound: int)
    requires
        lands_below(a, t.vertex_ids(), bound),
    ensures
        t.renumbered(a).below(bound),
{
    let r = t.renumbered(a);
    lemma_rewrite_lists(t, renumbered_fn(a));
    assert forall|i: int| 0 <= i < r.vertex_ids().len() implies #[trigger] r.vertex_ids()[i]
        < bound by {
        let w = lemma_gather_from(r.lists(), vertex_ids_fn(), i);
        let s = t.lists()[w.0];
        assert(r.lists()[w.0] == renumbered(a, s));
        let leaf = s[w.1] as usize;
        assert(vertex_ids_fn()(s)[w.1] == leaf);
        lemma_gather_has(t.lists(), vertex_ids_fn(), w.0, w.1);
        let j = choose|j: int| 0 <= j < t.vertex_ids().len() && t.vertex_ids()[j] == leaf;
        assert(new_of(a, t.vertex_ids()[j]) < bound);
        assert(r.vertex_ids()[i] == (new_of(a, leaf) as u32) as usize);
    }
}

/// A table without gaps sends whatever it covers below its length.
pub proof fn lemma_dense_lands(a: Pairs, ids: Seq<usize>)
    requires
        covers(a, ids),
        crate::remap::dense(a),
    ensures
        lands_below(a, ids, a.len() as int),
{
    assert forall|i: int| 0 <= i < ids.len() implies new_of(a, #[trigger] ids[i]) < a.len() by {
        assert(has_old(a, ids[i]));
        let p = crate::remap::position_of(a, ids[i]);
        assert(a[p].1 == p);
    }
}

/// Tells whether every index of one list is below `bound`.
fn list_is_below(arr: &Vec<u32>, bound: u64) -> (b: bool)
    ensures
        b == forall|i: int| 0 <= i < arr@.len() ==> #[trigger] arr@[i] < bound,
{
    let n = arr.len();
    let mut i: usize = 0;
    while i < n
        invariant
            i <= n,
            n == arr@.len(),
            forall|j: int| 0 <= j < i ==> #[trigger] arr@[j] < bound,
        decreases n - i,
    {
        if arr[i] as u64 >= bound {
            return false;
        }
        i += 1;
    }
    true
}

/// Tells whether every index of each of `subs` is below `bound`.
fn each_is_below(subs: &Vec<NestedArray<u32>>, bound: u64) -> (b: bool)
    ensures
        b == NestedArray::Nested(*subs)@.below(bound as int),
    decreases subs,
{
    let n = subs.len();
    let ghost whole = NestedArray::Nested(*subs)@;
    let ghost cs = whole->Nodes_0;
    let ghost g = vertex_ids_fn();
    let mut i: usize = 0;
    proof {
        lemma_view_nested(*subs);
    }
    while i < n
        invariant
            i <= n,
            n == subs@.len(),
            whole == NestedArray::Nested(*subs)@,
            whole is Nodes,
            cs == whole->Nodes_0,
            cs.len() == n,
            g == vertex_ids_fn(),
            forall|j: int| 0 <= j < n ==> #[trigger] cs[j] == subs@[j]@,
            forall|j: int| 0 <= j < i ==> (#[trigger] cs[j]).below(bound as int),
        decreases n - i,
    {
        assert(cs[i as int] == subs@[i as int]@);
        if !subs[i].is_below(bound) {
            proof {
                let c = cs[i as int];
                let k = choose|k: int|
                    0 <= k < c.vertex_ids().len() && !(#[trigger] c.vertex_ids()[k] < bound);
                lemma_gather_upto_has(cs, n as nat, g, i as int, k);
                let p = choose|p: int|
                    0 <= p < whole.vertex_ids().len() && whole.vertex_ids()[p] == c.vertex_ids()[k];
                assert(!(whole.vertex_ids()[p] < bound));
            }
            return false;
        }
        i += 1;
    }
    proof {
        assert forall|p: int| 0 <= p < whole.vertex_ids().len() implies #[trigger] whole.vertex_ids()[p]
            < bound by {
            let w = lemma_gather_from(whole.lists(), g, p);
            let c = lemma_lists_upto_from(cs, n as nat, w.0);
            let s = whole.lists()[w.0];
            assert(g(s)[w.1] == whole.vertex_ids()[p]);
            lemma_gather_has(cs[c.0].lists(), g, c.1, w.1);
            let q = choose|q: int|
                0 <= q < cs[c.0].vertex_ids().len() && cs[c.0].vertex_ids()[q] == g(s)[w.1];
            assert(cs[c.0].vertex_ids()[q] < bound);
        }
    }
    true
}

/// Each list of leaves of the first `n` trees is a list of leaves of one
/// of them.
pub proof fn lemma_lists_upto_from<T>(cs: Seq<Tree<T>>, n: nat, k: int) -> (w: (int, int))
    requires
        n <= cs.len(),
        0 <= k < lists_upto(cs, n).len(),
    ensures
        0 <= w.0 < n,
        0 <= w.1 < cs[w.0].lists().len(),
        lists_upto(cs, n)[k] == cs[w.0].lists()[w.1],
    decreases n,
{
    let front = lists_upto(cs, (n - 1) as nat);
    if k < front.len() {
        lemma_lists_upto_from(cs, (n - 1) as nat, k)
    } else {
        (n - 1, k - front.len())
    }
}

impl NestedArray<u32> {
    /// Tells whether every index is below `bound`.
    pub fn is_below(&self, bound: u64) -> (b: bool)
        ensures
            b == self@.below(bound as int),
        decreases self,
    {
        match self {
            NestedArray::Indices(arr) => {
                proof {
                    lemma_view_indices(*arr, vertex_ids_fn());
                }
                let b = list_is_below(arr, bound);
                proof {
                    if b {
                        assert forall|i: int| 0 <= i < self@.vertex_ids().len() implies #[trigger] self@.vertex_ids()[i]
                            < bound by {
                            assert(arr@[i] < bound);
                        }
                    } else {
                        let i = choose|i: int| 0 <= i < arr@.len() && !(#[trigger] arr@[i] < bound);
                        assert(self@.vertex_ids()[i] == arr@[i] as usize);
                    }
                }
                b
            },
            NestedArray::Nested(subs) => each_is_below(subs, bound),
        }
    }
}

/// A renumbered boundary nests as before, and each of its indices is the
/// new id of the index that stood there.
pub proof fn lemma_renumbered_at(t: Tree<u32>, a: Pairs, k: int, p: int)
    requires
        0 <= k < t.lists().len(),
        0 <= p < t.lists()[k].len(),
    ensures
        t.renumbered(a).lists().len() == t.lists().len(),
        t.renumbered(a).lists()[k].len() == t.lists()[k].len(),
        t.renumbered(a).lists()[k][p] == new_of(a, t.lists()[k][p] as usize) as u32,
        t.vertex_ids().contains(t.lists()[k][p] as usize),
{
    lemma_rewrite_lists(t, renumbered_fn(a));
    assert(vertex_ids_fn()(t.lists()[k])[p] == t.lists()[k][p] as usize);
    lemma_gather_has(t.lists(), vertex_ids_fn(), k, p);
}

/// A shifted boundary nests as before, and each of its indices is the index
/// that stood there, raised.
pub proof fn lemma_shifted_at(t: Tree<u32>, shift: int, k: int, p: int)
    requires
        0 <= k < t.lists().len(),
        0 <= p < t.lists()[k].len(),
    ensures
        t.shifted(shift).lists().len() == t.lists().len(),
        t.shifted(shift).lists()[k].len() == t.lists()[k].len(),
        t.shifted(shift).lists()[k][p] == (t.lists()[k][p] + shift) as u32,
        t.vertex_ids().contains(t.lists()[k][p] as usize),
{
    lemma_rewrite_lists(t, shifted_fn(shift));
    assert(vertex_ids_fn()(t.lists()[k])[p] == t.lists()[k][p] as usize);
    lemma_gather_has(t.lists(), vertex_ids_fn(), k, p);
}

impl<T> Tree<T> {
    /// Whether the lists of leaves all stand `d` levels deep: a list of
    /// leaves is 0 deep, a list of trees that are `d` deep is `d + 1` deep.
    pub open spec fn depth_is(self, d: nat) -> bool
        decreases self,
    {
        match self {
            Tree::Leaves(_) => d == 0,
            Tree::Nodes(cs) => d > 0 && forall|i: int|
                0 <= i < cs.len() ==> (#[trigger] cs[i]).depth_is((d - 1) as nat),
        }
    }
}

/// Rewriting the lists of leaves of a tree leaves them as deep as they were.
pub proof fn lemma_rewrite_depth<T>(t: Tree<T>, f: spec_fn(Seq<T>) -> Seq<T>, d: nat)
    ensures
        t.rewrite(f).depth_is(d) == t.depth_is(d),
    decreases t,
{
    match t {
        Tree::Leaves(_) => {},
        Tree::Nodes(cs) => {
            let cs2 = t.rewrite(f)->Nodes_0;
            if d > 0 {
                assert forall|i: int| 0 <= i < cs.len() implies (#[trigger] cs2[i]).depth_is(
                    (d - 1) as nat,
                ) == cs[i].depth_is((d - 1) as nat) by {
                    lemma_rewrite_depth(cs[i], f, (d - 1) as nat);
                }
                if t.depth_is(d) {
                    assert forall|i: int| 0 <= i < cs2.len() implies (#[trigger] cs2[i]).depth_is(
                        (d - 1) as nat,
                    ) by {
                        assert(cs[i].depth_is((d - 1) as nat));
                    }
                }
                if t.rewrite(f).depth_is(d) {
                    assert forall|i: int| 0 <= i < cs.len() implies (#[trigger] cs[i]).depth_is(
                        (d - 1) as nat,
                    ) by {
                        assert(cs2[i].depth_is((d - 1) as nat));
                    }
                }
            }
        },
    }
}

impl<T> Tree<T> {
    /// Whether `other` nests as this tree does: where this tree has a list
    /// of leaves, `other` has a list of as many; where this tree has trees,
    /// `other` has as many, each nesting as the tree in its place.
    pub open spec fn shaped_as(self, other: Tree<T>) -> bool
        decreases self,
    {
        match self {
            Tree::Leaves(s) => other is Leaves && other->Leaves_0.len() == s.len(),
            Tree::Nodes(cs) => other is Nodes && other->Nodes_0.len() == cs.len() && forall|i: int|
                0 <= i < cs.len() ==> (#[trigger] cs[i]).shaped_as(other->Nodes_0[i]),
        }
    }
}

/// A tree nests as itself.
pub proof fn lemma_shape_same<T>(t: Tree<T>)
    ensures
        t.shaped_as(t),
    decreases t,
{
    match t {
        Tree::Leaves(_) => {},
        Tree::Nodes(cs) => {
            assert forall|i: int| 0 <= i < cs.len() implies (#[trigger] cs[i]).shaped_as(cs[i]) by {
                lemma_shape_same(cs[i]);
            }
        },
    }
}

/// What nests as a tree that nests as another nests as the other.
pub proof fn lemma_shape_chain<T>(a: Tree<T>, b: Tree<T>, c: Tree<T>)
    requires
        a.shaped_as(b),
        b.shaped_as(c),
    ensures
        a.shaped_as(c),
    decreases a,
{
    match a {
        Tree::Leaves(_) => {},
        Tree::Nodes(cs) => {
            let bs = b->Nodes_0;
            let ds = c->Nodes_0;
            assert forall|i: int| 0 <= i < cs.len() implies (#[trigger] cs[i]).shaped_as(ds[i]) by {
                assert(cs[i].shaped_as(bs[i]));
                assert(bs[i].shaped_as(ds[i]));
                lemma_shape_chain(cs[i], bs[i], ds[i]);
            }
        },
    }
}

/// Rewriting each list of leaves into one of as many leaves leaves the
/// nesting as it was.
pub proof fn lemma_rewrite_shape<T>(t: Tree<T>, f: spec_fn(Seq<T>) -> Seq<T>)
    requires
        forall|s: Seq<T>| (#[trigger] f(s)).len() == s.len(),
    ensures
        t.shaped_as(t.rewrite(f)),
    decreases t,
{
    match t {
        Tree::Leaves(_) => {},
        Tree::Nodes(cs) => {
            let cs2 = t.rewrite(f)->Nodes_0;
            assert forall|i: int| 0 <= i < cs.len() implies (#[trigger] cs[i]).shaped_as(cs2[i]) by {
                lemma_rewrite_shape(cs[i], f);
            }
        },
    }
}

/// Renumbering or shifting the indices of a boundary leaves its nesting as
/// it was.
pub proof fn lemma_moved_shape(t: Tree<u32>, a: Pairs, k: int)
    ensures
        t.shaped_as(t.renumbered(a)),
        t.shaped_as(t.shifted(k)),
{
    assert forall|s: Seq<u32>| (#[trigger] renumbered_fn(a)(s)).len() == s.len() by {}
    assert forall|s: Seq<u32>| (#[trigger] shifted_fn(k)(s)).len() == s.len() by {}
    lemma_rewrite_shape(t, renumbered_fn(a));
    lemma_rewrite_shape(t, shifted_fn(k));
}

/// Tells whether each of `subs` is `d` deep.
fn each_has_depth<T>(subs: &Vec<NestedArray<T>>, d: usize) -> (b: bool)
    ensures
        b == forall|i: int| 0 <= i < subs@.len() ==> (#[trigger] subs@[i])@.depth_is(d as nat),
    decreases subs,
{
    let n = subs.len();
    let mut i: usize = 0;
    while i < n
        invariant
            i <= n,
            n == subs@.len(),
            forall|j: int| 0 <= j < i ==> (#[trigger] subs@[j])@.depth_is(d as nat),
        decreases n - i,
    {
        if !subs[i].has_depth(d) {
            return false;
        }
        i += 1;
    }
    true
}

impl<T> NestedArray<T> {
    /// Tells whether the lists of indices all stand `d` levels deep.
    pub fn has_depth(&self, d: usize) -> (b: bool)
        ensures
            b == self@.depth_is(d as nat),
        decreases self,
    {
        match self {
            NestedArray::Indices(_) => d == 0,
            NestedArray::Nested(subs) => {
                proof {
                    lemma_view_nested(*subs);
                }
                if d == 0 {
                    return false;
                }
                let b = each_has_depth(subs, d - 1);
                proof {
                    let cs = self@->Nodes_0;
                    if b {
                        assert forall|i: int| 0 <= i < cs.len() implies (#[trigger] cs[i]).depth_is(
                            (d - 1) as nat,
                        ) by {
                            assert(subs@[i]@.depth_is((d - 1) as nat));
                        }
                    } else {
                        let i = choose|i: int|
                            0 <= i < subs@.len() && !(#[trigger] subs@[i])@.depth_is((d - 1) as nat);
                        assert(cs[i] == subs@[i]@);
                    }
                }
                b
            },
        }
    }
}

/// Where each item of `ls2` gives the ids of the item of `ls` at its place,
/// each sent through `h`, `ls2` gives the ids of `ls`, each sent through `h`.
pub proof fn lemma_gather_map<X>(
    ls: Seq<X>,
    ls2: Seq<X>,
    g: spec_fn(X) -> Seq<usize>,
    h: spec_fn(usize) -> usize,
)
    requires
        ls2.len() == ls.len(),
        forall|k: int| 0 <= k < ls.len() ==> g(#[trigger] ls2[k]) == g(ls[k]).map_values(h),
    ensures
        gather(ls2, g) == gather(ls, g).map_values(h),
    decreases ls.len(),
{
    if ls.len() > 0 {
        assert forall|k: int| 0 <= k < ls.drop_last().len() implies g(#[trigger] ls2.drop_last()[k])
            == g(ls.drop_last()[k]).map_values(h) by {
            assert(ls2.drop_last()[k] == ls2[k]);
            assert(ls.drop_last()[k] == ls[k]);
        }
        lemma_gather_map(ls.drop_last(), ls2.drop_last(), g, h);
        assert(g(ls2[ls.len() - 1]) == g(ls[ls.len() - 1]).map_values(h));
    }
    assert(gather(ls2, g) =~= gather(ls, g).map_values(h));
}

} // verus!
