//! The four renumbering tables of one operation: for vertices, materials,
//! textures and texture vertices.

use crate::remap::{
    covers, extends, keys_unique, lemma_resolve_all, lemma_resolve_all_concat,
    lemma_resolve_single, resolve_all, IdRemap, Pairs,
};
use vstd::prelude::*;

verus! {

/// What a transfer does to the vertex indices of a boundary.
#[derive(Clone, Copy, Debug, PartialEq, Eq)]
pub enum Motion {
    /// They stay as they are.
    Keep,
    /// Each is raised by this much.
    Shift(usize),
    /// Each is renumbered through the vertex table.
    Renumber,
}

/// How a part of a document is transferred into another numbering.
#[derive(Clone, Copy, Debug, PartialEq, Eq)]
pub struct Plan {
    /// What happens to the vertex indices.
    pub boundaries: Motion,
    /// Whether the references to materials, textures and texture vertices
    /// are renumbered through their tables.
    pub appearance: bool,
}

impl Plan {
    /// For a feature that is cut out of a document: everything is
    /// renumbered.
    pub open spec fn split() -> Plan {
        Plan { boundaries: Motion::Renumber, appearance: true }
    }

    /// For a feature that is added to a document with `k` vertices: vertex
    /// indices are raised by `k`, the rest is renumbered.
    pub open spec fn merge(k: usize) -> Plan {
        Plan { boundaries: Motion::Shift(k), appearance: true }
    }

    /// For geometry templates, whose vertices are their own: vertex indices
    /// stay, the rest is renumbered.
    pub open spec fn templates() -> Plan {
        Plan { boundaries: Motion::Keep, appearance: true }
    }

    /// For a document whose vertices change place: vertex indices are
    /// renumbered, the rest stays.
    pub open spec fn vertices() -> Plan {
        Plan { boundaries: Motion::Renumber, appearance: false }
    }
}

/// The ids that a part of a document refers to, of each of the four kinds,
/// in document order.
pub struct Ids {
    pub vertices: Seq<usize>,
    pub materials: Seq<usize>,
    pub textures: Seq<usize>,
    pub texture_vertices: Seq<usize>,
}

impl Ids {
    /// No ids.
    pub open spec fn none() -> Ids {
        Ids {
            vertices: Seq::empty(),
            materials: Seq::empty(),
            textures: Seq::empty(),
            texture_vertices: Seq::empty(),
        }
    }

    /// These ids, then those of `other`.
    pub open spec fn plus(self, other: Ids) -> Ids {
        Ids {
            vertices: self.vertices + other.vertices,
            materials: self.materials + other.materials,
            textures: self.textures + other.textures,
            texture_vertices: self.texture_vertices + other.texture_vertices,
        }
    }

    /// The ids of materials, textures and texture vertices, without those of
    /// vertices.
    pub open spec fn appearance(self) -> Ids {
        Ids { vertices: Seq::empty(), ..self }
    }

    /// The ids of materials, textures and texture vertices, each replaced by
    /// what the table of its kind records for it.
    pub open spec fn through(self, t: TablesView) -> Ids {
        Ids {
            vertices: Seq::empty(),
            materials: self.materials.map_values(crate::remap::new_of_fn(t.materials)),
            textures: self.textures.map_values(crate::remap::new_of_fn(t.textures)),
            texture_vertices: self.texture_vertices.map_values(
                crate::remap::new_of_fn(t.texture_vertices),
            ),
        }
    }

    /// Those of these ids that a transfer under `plan` resolves.
    pub open spec fn under(self, plan: Plan) -> Ids {
        Ids {
            vertices: if plan.boundaries is Renumber {
                self.vertices
            } else {
                Seq::empty()
            },
            materials: if plan.appearance {
                self.materials
            } else {
                Seq::empty()
            },
            textures: if plan.appearance {
                self.textures
            } else {
                Seq::empty()
            },
            texture_vertices: if plan.appearance {
                self.texture_vertices
            } else {
                Seq::empty()
            },
        }
    }
}

/// What four tables record.
pub struct TablesView {
    pub vertices: Pairs,
    pub materials: Pairs,
    pub textures: Pairs,
    pub texture_vertices: Pairs,
}

impl TablesView {
    /// Four tables that record nothing.
    pub open spec fn empty() -> TablesView {
        TablesView {
            vertices: Seq::empty(),
            materials: Seq::empty(),
            textures: Seq::empty(),
            texture_vertices: Seq::empty(),
        }
    }

    /// The tables after the ids of each kind have been resolved in order. A
    /// new id is the length of its table; for texture vertices it is the
    /// length plus `uv_offset`.
    pub open spec fn resolved(self, ids: Ids, uv_offset: usize) -> TablesView {
        TablesView {
            vertices: resolve_all(self.vertices, ids.vertices, 0),
            materials: resolve_all(self.materials, ids.materials, 0),
            textures: resolve_all(self.textures, ids.textures, 0),
            texture_vertices: resolve_all(self.texture_vertices, ids.texture_vertices, uv_offset),
        }
    }

    /// Every id of `ids` is recorded in the table of its kind.
    pub open spec fn covers(self, ids: Ids) -> bool {
        &&& covers(self.vertices, ids.vertices)
        &&& covers(self.materials, ids.materials)
        &&& covers(self.textures, ids.textures)
        &&& covers(self.texture_vertices, ids.texture_vertices)
    }

    /// Whatever these tables record, `other` records too.
    pub open spec fn extends(self, other: TablesView) -> bool {
        &&& extends(self.vertices, other.vertices)
        &&& extends(self.materials, other.materials)
        &&& extends(self.textures, other.textures)
        &&& extends(self.texture_vertices, other.texture_vertices)
    }

    /// No table records an id twice.
    pub open spec fn unique(self) -> bool {
        &&& keys_unique(self.vertices)
        &&& keys_unique(self.materials)
        &&& keys_unique(self.textures)
        &&& keys_unique(self.texture_vertices)
    }

    /// The new ids of the texture vertices of `ids` fit the machine's
    /// integers.
    pub open spec fn room(self, ids: Ids, uv_offset: usize) -> bool {
        uv_offset == 0 || self.texture_vertices.len() + ids.texture_vertices.len() + uv_offset
            <= usize::MAX
    }
}

/// Resolving keeps what was recorded, and records every id that was resolved.
pub proof fn lemma_resolved(t: TablesView, ids: Ids, uv_offset: usize)
    requires
        t.unique(),
    ensures
        t.resolved(ids, uv_offset).unique(),
        t.extends(t.resolved(ids, uv_offset)),
        t.resolved(ids, uv_offset).covers(ids),
        t.resolved(ids, uv_offset).texture_vertices.len() <= t.texture_vertices.len()
            + ids.texture_vertices.len(),
{
    lemma_resolve_all(t.vertices, ids.vertices, 0);
    lemma_resolve_all(t.materials, ids.materials, 0);
    lemma_resolve_all(t.textures, ids.textures, 0);
    lemma_resolve_all(t.texture_vertices, ids.texture_vertices, uv_offset);
}

/// Resolving `a` and then `b` is resolving `a.plus(b)`.
pub proof fn lemma_resolved_plus(t: TablesView, a: Ids, b: Ids, uv_offset: usize)
    ensures
        t.resolved(a, uv_offset).resolved(b, uv_offset) == t.resolved(a.plus(b), uv_offset),
{
    lemma_resolve_all_concat(t.vertices, a.vertices, b.vertices, 0);
    lemma_resolve_all_concat(t.materials, a.materials, b.materials, 0);
    lemma_resolve_all_concat(t.textures, a.textures, b.textures, 0);
    lemma_resolve_all_concat(t.texture_vertices, a.texture_vertices, b.texture_vertices, uv_offset);
}

/// Replacing the ids of two runs is replacing those of each.
pub proof fn lemma_through_plus(a: Ids, b: Ids, t: TablesView)
    ensures
        a.plus(b).through(t) == a.through(t).plus(b.through(t)),
        a.plus(b).appearance() == a.appearance().plus(b.appearance()),
{
    let l = a.plus(b).through(t);
    let r = a.through(t).plus(b.through(t));
    assert(l.vertices =~= r.vertices);
    assert(l.materials =~= r.materials);
    assert(l.textures =~= r.textures);
    assert(l.texture_vertices =~= r.texture_vertices);
    assert(a.plus(b).appearance().vertices =~= a.appearance().plus(b.appearance()).vertices);
}

/// Resolving no ids changes nothing.
pub proof fn lemma_resolved_none(t: TablesView, uv_offset: usize)
    ensures
        t.resolved(Ids::none(), uv_offset) == t,
{
    lemma_resolve_single(t.vertices, 0, 0);
    lemma_resolve_single(t.materials, 0, 0);
    lemma_resolve_single(t.textures, 0, 0);
    lemma_resolve_single(t.texture_vertices, 0, uv_offset);
}

/// Tables that cover some ids and grow still cover them.
pub proof fn lemma_covers_extends(a: TablesView, b: TablesView, ids: Ids)
    requires
        a.covers(ids),
        a.extends(b),
    ensures
        b.covers(ids),
{
    assert forall|i: int| 0 <= i < ids.vertices.len() implies crate::remap::has_old(
        b.vertices,
        #[trigger] ids.vertices[i],
    ) by {
        assert(crate::remap::has_old(a.vertices, ids.vertices[i]));
    }
    assert forall|i: int| 0 <= i < ids.materials.len() implies crate::remap::has_old(
        b.materials,
        #[trigger] ids.materials[i],
    ) by {
        assert(crate::remap::has_old(a.materials, ids.materials[i]));
    }
    assert forall|i: int| 0 <= i < ids.textures.len() implies crate::remap::has_old(
        b.textures,
        #[trigger] ids.textures[i],
    ) by {
        assert(crate::remap::has_old(a.textures, ids.textures[i]));
    }
    assert forall|i: int| 0 <= i < ids.texture_vertices.len() implies crate::remap::has_old(
        b.texture_vertices,
        #[trigger] ids.texture_vertices[i],
    ) by {
        assert(crate::remap::has_old(a.texture_vertices, ids.texture_vertices[i]));
    }
}

/// What `need` draws from each item of `xs`, item after item.
pub open spec fn all_need<X>(xs: Seq<X>, need: spec_fn(X) -> Ids) -> Ids
    decreases xs.len(),
{
    if xs.len() == 0 {
        Ids::none()
    } else {
        all_need(xs.drop_last(), need).plus(need(xs.last()))
    }
}

/// One item more adds what `need` draws from it.
pub proof fn lemma_all_need_take<X>(xs: Seq<X>, need: spec_fn(X) -> Ids, i: int)
    requires
        0 <= i < xs.len(),
    ensures
        all_need(xs.take(i + 1), need) == all_need(xs.take(i), need).plus(need(xs[i])),
{
    assert(xs.take(i + 1).drop_last() =~= xs.take(i));
}

/// A prefix draws no more texture vertices than the whole.
pub proof fn lemma_all_need_len<X>(xs: Seq<X>, need: spec_fn(X) -> Ids, i: int)
    requires
        0 <= i <= xs.len(),
    ensures
        all_need(xs.take(i), need).texture_vertices.len() <= all_need(
            xs,
            need,
        ).texture_vertices.len(),
    decreases xs.len() - i,
{
    if i < xs.len() {
        lemma_all_need_take(xs, need, i);
        lemma_all_need_len(xs, need, i + 1);
    } else {
        assert(xs.take(i) =~= xs);
    }
}

/// Tables that cover `a.plus(b)` cover `a` and cover `b`.
pub proof fn lemma_covers_plus(t: TablesView, a: Ids, b: Ids)
    requires
        t.covers(a.plus(b)),
    ensures
        t.covers(a),
        t.covers(b),
{
    let all = a.plus(b);
    assert forall|k: int| 0 <= k < a.vertices.len() implies crate::remap::has_old(
        t.vertices,
        #[trigger] a.vertices[k],
    ) by {
        assert(all.vertices[k] == a.vertices[k]);
    }
    assert forall|k: int| 0 <= k < a.materials.len() implies crate::remap::has_old(
        t.materials,
        #[trigger] a.materials[k],
    ) by {
        assert(all.materials[k] == a.materials[k]);
    }
    assert forall|k: int| 0 <= k < a.textures.len() implies crate::remap::has_old(
        t.textures,
        #[trigger] a.textures[k],
    ) by {
        assert(all.textures[k] == a.textures[k]);
    }
    assert forall|k: int| 0 <= k < a.texture_vertices.len() implies crate::remap::has_old(
        t.texture_vertices,
        #[trigger] a.texture_vertices[k],
    ) by {
        assert(all.texture_vertices[k] == a.texture_vertices[k]);
    }
    assert forall|k: int| 0 <= k < b.vertices.len() implies crate::remap::has_old(
        t.vertices,
        #[trigger] b.vertices[k],
    ) by {
        assert(all.vertices[a.vertices.len() + k] == b.vertices[k]);
    }
    assert forall|k: int| 0 <= k < b.materials.len() implies crate::remap::has_old(
        t.materials,
        #[trigger] b.materials[k],
    ) by {
        assert(all.materials[a.materials.len() + k] == b.materials[k]);
    }
    assert forall|k: int| 0 <= k < b.textures.len() implies crate::remap::has_old(
        t.textures,
        #[trigger] b.textures[k],
    ) by {
        assert(all.textures[a.textures.len() + k] == b.textures[k]);
    }
    assert forall|k: int| 0 <= k < b.texture_vertices.len() implies crate::remap::has_old(
        t.texture_vertices,
        #[trigger] b.texture_vertices[k],
    ) by {
        assert(all.texture_vertices[a.texture_vertices.len() + k] == b.texture_vertices[k]);
    }
}

/// Tables that cover `a` and cover `b` cover `a.plus(b)`.
pub proof fn lemma_covers_plus_back(t: TablesView, a: Ids, b: Ids)
    requires
        t.covers(a),
        t.covers(b),
    ensures
        t.covers(a.plus(b)),
{
    let all = a.plus(b);
    assert forall|k: int| 0 <= k < all.vertices.len() implies crate::remap::has_old(
        t.vertices,
        #[trigger] all.vertices[k],
    ) by {
        if k < a.vertices.len() {
            assert(all.vertices[k] == a.vertices[k]);
        } else {
            assert(all.vertices[k] == b.vertices[k - a.vertices.len()]);
        }
    }
    assert forall|k: int| 0 <= k < all.materials.len() implies crate::remap::has_old(
        t.materials,
        #[trigger] all.materials[k],
    ) by {
        if k < a.materials.len() {
            assert(all.materials[k] == a.materials[k]);
        } else {
            assert(all.materials[k] == b.materials[k - a.materials.len()]);
        }
    }
    assert forall|k: int| 0 <= k < all.textures.len() implies crate::remap::has_old(
        t.textures,
        #[trigger] all.textures[k],
    ) by {
        if k < a.textures.len() {
            assert(all.textures[k] == a.textures[k]);
        } else {
            assert(all.textures[k] == b.textures[k - a.textures.len()]);
        }
    }
    assert forall|k: int| 0 <= k < all.texture_vertices.len() implies crate::remap::has_old(
        t.texture_vertices,
        #[trigger] all.texture_vertices[k],
    ) by {
        if k < a.texture_vertices.len() {
            assert(all.texture_vertices[k] == a.texture_vertices[k]);
        } else {
            assert(all.texture_vertices[k] == b.texture_vertices[k - a.texture_vertices.len()]);
        }
    }
}

/// Tables that cover what all items need cover what each of them needs.
pub proof fn lemma_all_need_covers<X>(xs: Seq<X>, need: spec_fn(X) -> Ids, t: TablesView, i: int)
    requires
        0 <= i < xs.len(),
        t.covers(all_need(xs, need)),
    ensures
        t.covers(need(xs[i])),
    decreases xs.len(),
{
    lemma_covers_plus(t, all_need(xs.drop_last(), need), need(xs.last()));
    if i < xs.len() - 1 {
        lemma_all_need_covers(xs.drop_last(), need, t, i);
    }
}

/// The renumbering tables that one operation owns and hands to each of its
/// steps.
pub struct Tables {
    pub vertices: IdRemap,
    pub materials: IdRemap,
    pub textures: IdRemap,
    pub texture_vertices: IdRemap,
}

impl View for Tables {
    type V = TablesView;

    open spec fn view(&self) -> TablesView {
        TablesView {
            vertices: self.vertices@,
            materials: self.materials@,
            textures: self.textures@,
            texture_vertices: self.texture_vertices@,
        }
    }
}

impl Tables {
    /// Each of the four tables is well formed.
    pub open spec fn wf(&self) -> bool {
        &&& self.vertices.wf()
        &&& self.materials.wf()
        &&& self.textures.wf()
        &&& self.texture_vertices.wf()
    }

    /// Four empty tables.
    pub fn new() -> (t: Self)
        ensures
            t.wf(),
            t@ == TablesView::empty(),
    {
        Tables {
            vertices: IdRemap::new(),
            materials: IdRemap::new(),
            textures: IdRemap::new(),
            texture_vertices: IdRemap::new(),
        }
    }

    /// Well-formed tables record no id twice.
    pub proof fn lemma_unique(&self)
        requires
            self.wf(),
        ensures
            self@.unique(),
    {
        self.vertices.lemma_unique();
        self.materials.lemma_unique();
        self.textures.lemma_unique();
        self.texture_vertices.lemma_unique();
    }
}

/// A count, or the greatest number that the machine counts to if the count
/// is greater.
pub open spec fn capped(n: int) -> usize {
    if n > usize::MAX {
        usize::MAX
    } else {
        n as usize
    }
}

/// The sum of two counts, capped.
pub fn add_capped(a: usize, b: usize) -> (c: usize)
    ensures
        c == capped(a + b),
{
    match a.checked_add(b) {
        Some(c) => c,
        None => usize::MAX,
    }
}

impl Tables {
    /// Tells whether the new ids of `count` texture vertices fit the
    /// machine's integers, where `count` is capped.
    pub fn has_room(&self, count: usize, uv_offset: usize) -> (b: bool)
        ensures
            forall|ids: Ids|
                count == capped(#[trigger] ids.texture_vertices.len() as int) ==> b == self@.room(
                    ids,
                    uv_offset,
                ),
    {
        if uv_offset == 0 {
            return true;
        }
        match self.texture_vertices.len().checked_add(count) {
            Some(x) => x.checked_add(uv_offset).is_some(),
            None => false,
        }
    }
}

} // verus!
