//! The joining of features into one document: adding a feature, removing
//! vertices that occur twice, and moving the vertices to the origin.

use crate::appearance::{
    add_material_to, add_texture_to, add_vertices_texture_to, appearance_view, copy_items,
    or_empty, Appearance, AppearanceView, MaterialObject, TextureObject, Validate,
};
use crate::cityjson::{CityJSON, CityJSONFeature, CityJSONFeatureView, CityJSONView};
use crate::appearance::border_reason;
use crate::cityobject::{
    can_transfer_objects, objects_fit, objects_need, objects_transferred, transfer_objects,
    CityObject, CityObjectView,
};
use crate::error::{CjseqError, Result};
use vstd::string::StringExecFns;
use crate::namemap::{put_all, NameMap};
use crate::remap::{record_one, IdRemap, Pairs};
use crate::tables::{Motion, Plan, Tables, TablesView};
use vstd::prelude::*;

verus! {

/// The appearance and the material table after each of `mats` has been
/// added to the appearance, in order, and its place there recorded for its
/// place in `mats`.
pub open spec fn absorb_materials(
    a: Option<AppearanceView>,
    t: Pairs,
    mats: Seq<MaterialObject>,
) -> (Option<AppearanceView>, Pairs)
    decreases mats.len(),
{
    if mats.len() == 0 {
        (a, t)
    } else {
        let (a1, t1) = absorb_materials(a, t, mats.drop_last());
        let (p, a2) = or_empty(a1).with_material(mats.last());
        (Some(a2), record_one(t1, (mats.len() - 1) as usize, p as usize))
    }
}

/// The appearance and the texture table after each of `texs` has been added
/// to the appearance, in order, and its place there recorded for its place
/// in `texs`.
pub open spec fn absorb_textures(
    a: Option<AppearanceView>,
    t: Pairs,
    texs: Seq<TextureObject>,
) -> (Option<AppearanceView>, Pairs)
    decreases texs.len(),
{
    if texs.len() == 0 {
        (a, t)
    } else {
        let (a1, t1) = absorb_textures(a, t, texs.drop_last());
        let (p, a2) = or_empty(a1).with_texture(texs.last());
        (Some(a2), record_one(t1, (texs.len() - 1) as usize, p as usize))
    }
}

/// Whether each of the materials is valid.
pub open spec fn materials_valid(mats: Seq<MaterialObject>) -> bool {
    forall|i: int| 0 <= i < mats.len() ==> (#[trigger] mats[i]).valid()
}

/// Whether each of the textures is valid.
pub open spec fn textures_valid(texs: Seq<TextureObject>) -> bool {
    forall|i: int| 0 <= i < texs.len() ==> (#[trigger] texs[i]).valid()
}

/// Adds each material to the appearance in `slot` and records its place.
fn absorb_material_list(slot: &mut Option<Appearance>, mats: &Vec<MaterialObject>, table: &mut IdRemap)
    requires
        old(table).wf(),
        materials_valid(mats@),
    ensures
        final(table).wf(),
        (appearance_view(*final(slot)), final(table)@) == absorb_materials(
            appearance_view(*old(slot)),
            old(table)@,
            mats@,
        ),
{
    let n = mats.len();
    let ghost a0 = appearance_view(*slot);
    let ghost t0 = table@;
    let mut i: usize = 0;
    assert(mats@.take(0) =~= Seq::<MaterialObject>::empty());
    while i < n
        invariant
            i <= n,
            n == mats@.len(),
            a0 == appearance_view(*old(slot)),
            t0 == old(table)@,
            materials_valid(mats@),
            table.wf(),
            (appearance_view(*slot), table@) == absorb_materials(a0, t0, mats@.take(i as int)),
        decreases n - i,
    {
        assert(mats@.take(i + 1).drop_last() =~= mats@.take(i as int));
        assert(mats@[i as int].valid());
        let idx = add_material_to(slot, mats[i].clone());
        table.record(i, idx);
        i += 1;
    }
    assert(mats@.take(n as int) =~= mats@);
}

/// Adds each texture to the appearance in `slot` and records its place.
fn absorb_texture_list(slot: &mut Option<Appearance>, texs: &Vec<TextureObject>, table: &mut IdRemap)
    requires
        old(table).wf(),
        textures_valid(texs@),
    ensures
        final(table).wf(),
        (appearance_view(*final(slot)), final(table)@) == absorb_textures(
            appearance_view(*old(slot)),
            old(table)@,
            texs@,
        ),
{
    let n = texs.len();
    let ghost a0 = appearance_view(*slot);
    let ghost t0 = table@;
    let mut i: usize = 0;
    assert(texs@.take(0) =~= Seq::<TextureObject>::empty());
    while i < n
        invariant
            i <= n,
            n == texs@.len(),
            a0 == appearance_view(*old(slot)),
            t0 == old(table)@,
            textures_valid(texs@),
            table.wf(),
            (appearance_view(*slot), table@) == absorb_textures(a0, t0, texs@.take(i as int)),
        decreases n - i,
    {
        assert(texs@.take(i + 1).drop_last() =~= texs@.take(i as int));
        assert(texs@[i as int].valid());
        let idx = add_texture_to(slot, texs[i].clone());
        table.record(i, idx);
        i += 1;
    }
    assert(texs@.take(n as int) =~= texs@);
}

/// Puts a copy of each object of `items` into `target`, in order.
fn put_copies(target: &mut NameMap<CityObject>, items: &NameMap<CityObject>)
    ensures
        final(target).deep_view() == put_all(old(target).deep_view(), items.deep_view()),
{
    let n = items.entries.len();
    let ghost base = target.deep_view();
    let ghost its = items.deep_view();
    let mut i: usize = 0;
    assert(its.take(0) =~= Seq::<(Seq<char>, CityObjectView)>::empty());
    while i < n
        invariant
            i <= n,
            n == items.entries@.len(),
            base == old(target).deep_view(),
            its == items.deep_view(),
            its.len() == n,
            target.deep_view() == put_all(base, its.take(i as int)),
        decreases n - i,
    {
        assert(its.take(i + 1).drop_last() =~= its.take(i as int));
        let key = items.entries[i].0.clone();
        let co = items.entries[i].1.clone();
        let ghost before = *target;
        target.insert(key, co);
        proof {
            NameMap::lemma_put(before, *target, key, co);
            assert(its[i as int] == (key@, co@));
        }
        i += 1;
    }
    assert(its.take(n as int) =~= its);
}

/// What comes of adding a feature to a document.
pub struct Merged {
    /// The document with the feature in it.
    pub document: CityJSONView,
    /// What is left of the feature: its objects as they went into the
    /// document, and no vertices.
    pub feature: CityJSONFeatureView,
    /// What the tables record afterwards.
    pub tables: TablesView,
}

impl CityJSONFeatureView {
    /// The materials of the feature, none if it has no list of them.
    pub open spec fn materials(self) -> Seq<MaterialObject> {
        match self.appearance {
            Some(a) => a.material_list(),
            None => Seq::empty(),
        }
    }

    /// The textures of the feature, none if it has no list of them.
    pub open spec fn textures(self) -> Seq<TextureObject> {
        match self.appearance {
            Some(a) => a.texture_list(),
            None => Seq::empty(),
        }
    }

    /// How many texture vertices the feature has.
    pub open spec fn uv_count(self) -> nat {
        match self.appearance {
            Some(a) => a.vertex_list().len(),
            None => 0,
        }
    }
}

/// The table after the places `base`, `base + 1` and so on have been
/// recorded for the ids from zero up to `n`.
pub open spec fn record_run(t: Pairs, base: int, n: nat) -> Pairs
    decreases n,
{
    if n == 0 {
        t
    } else {
        record_one(record_run(t, base, (n - 1) as nat), (n - 1) as usize, (base + n - 1) as usize)
    }
}

/// Adding materials to an appearance leaves its textures and its texture
/// vertices as they are.
pub proof fn lemma_absorb_materials_keeps(
    a: Option<AppearanceView>,
    t: Pairs,
    mats: Seq<MaterialObject>,
)
    ensures
        or_empty(absorb_materials(a, t, mats).0).vertex_list() == or_empty(a).vertex_list(),
        or_empty(absorb_materials(a, t, mats).0).texture_list() == or_empty(a).texture_list(),
    decreases mats.len(),
{
    if mats.len() > 0 {
        lemma_absorb_materials_keeps(a, t, mats.drop_last());
    }
}

/// Adding textures to an appearance leaves its materials and its texture
/// vertices as they are.
pub proof fn lemma_absorb_textures_keeps(
    a: Option<AppearanceView>,
    t: Pairs,
    texs: Seq<TextureObject>,
)
    ensures
        or_empty(absorb_textures(a, t, texs).0).vertex_list() == or_empty(a).vertex_list(),
        or_empty(absorb_textures(a, t, texs).0).material_list() == or_empty(a).material_list(),
    decreases texs.len(),
{
    if texs.len() > 0 {
        lemma_absorb_textures_keeps(a, t, texs.drop_last());
    }
}

/// Records the places from `base` on for the ids from zero up to `n`.
fn record_places(table: &mut IdRemap, base: usize, n: usize)
    requires
        old(table).wf(),
        base + n <= usize::MAX,
    ensures
        final(table).wf(),
        final(table)@ == record_run(old(table)@, base as int, n as nat),
{
    let mut i: usize = 0;
    while i < n
        invariant
            i <= n,
            base + n <= usize::MAX,
            table.wf(),
            table@ == record_run(old(table)@, base as int, i as nat),
        decreases n - i,
    {
        table.record(i, base + i);
        i += 1;
    }
}

impl CityJSONView {
    /// The appearance after the materials, the textures and the texture
    /// vertices of `f` have been added to it, and the tables after the
    /// places that they have there have been recorded for the places that
    /// they have in `f`. A material goes to the place of the material of its
    /// name, a texture to that of the texture of its image, and the texture
    /// vertices go to the end.
    pub open spec fn absorbed(self, f: CityJSONFeatureView, t: TablesView) -> (
        Option<AppearanceView>,
        TablesView,
    ) {
        let (a1, tm) = absorb_materials(self.appearance, t.materials, f.materials());
        let (a2, tt) = absorb_textures(a1, t.textures, f.textures());
        let base = or_empty(a2).vertex_list().len() as int;
        let (a3, tv) = match f.appearance {
            Some(fa) => match fa.vertices_texture {
                Some(vt) => (
                    Some(or_empty(a2).with_vertices(vt)),
                    record_run(t.texture_vertices, base, vt.len()),
                ),
                None => (a2, t.texture_vertices),
            },
            None => (a2, t.texture_vertices),
        };
        (a3, TablesView { materials: tm, textures: tt, texture_vertices: tv, ..t })
    }

    /// What comes of adding the feature `f` with the tables `t`: the
    /// appearance of the feature goes into that of the document; the objects
    /// of the feature have their vertex indices raised by the number of
    /// vertices of the document and their other references renumbered
    /// through the tables, and go into the document; the vertices of the
    /// feature go to the end of those of the document, and its name to the
    /// end of the order of the features. A reference to something that the
    /// feature does not hold gets the next id that is free in its table.
    pub open spec fn merged(self, f: CityJSONFeatureView, t: TablesView) -> Merged {
        let plan = Plan::merge(self.vertices.len() as usize);
        let (a, t1) = self.absorbed(f, t);
        let t2 = t1.resolved(objects_need(f.city_objects, plan), 0);
        let objects = objects_transferred(f.city_objects, plan, t2);
        Merged {
            document: CityJSONView {
                appearance: a,
                city_objects: put_all(self.city_objects, objects),
                vertices: self.vertices + f.vertices,
                sorted_ids: self.sorted_ids.push(f.id),
                ..self
            },
            feature: CityJSONFeatureView { city_objects: objects, vertices: Seq::empty(), ..f },
            tables: t2,
        }
    }

    /// Whether the feature `f` can be added: its materials and textures are
    /// valid, and the new vertex indices and the new places of the texture
    /// vertices fit the machine's integers.
    pub open spec fn mergeable(self, f: CityJSONFeatureView) -> bool {
        let plan = Plan::merge(self.vertices.len() as usize);
        &&& materials_valid(f.materials())
        &&& textures_valid(f.textures())
        &&& objects_fit(f.city_objects, plan)
        &&& or_empty(self.appearance).vertex_list().len() + f.uv_count() <= usize::MAX
    }
}

impl CityJSON {
    /// Adds the feature `cjf` to the document, with tables that the caller
    /// keeps.
    pub fn merge_feature(&mut self, cjf: &mut CityJSONFeature, tables: &mut Tables)
        requires
            old(tables).wf(),
            old(self)@.mergeable(old(cjf)@),
        ensures
            final(tables).wf(),
            final(self)@ == old(self)@.merged(old(cjf)@, old(tables)@).document,
            final(cjf)@ == old(self)@.merged(old(cjf)@, old(tables)@).feature,
            final(tables)@ == old(self)@.merged(old(cjf)@, old(tables)@).tables,
            old(self)@.indices_valid() && old(cjf)@.indices_valid()
                ==> final(self)@.indices_valid(),
    {
        let g_offset = self.vertices.len();
        proof {
            if self@.indices_valid() && cjf@.indices_valid() {
                crate::laws::lemma_merge_indices_valid(self@, cjf@, tables@);
            }
            lemma_absorb_materials_keeps(self@.appearance, tables@.materials, cjf@.materials());
            lemma_absorb_textures_keeps(
                absorb_materials(self@.appearance, tables@.materials, cjf@.materials()).0,
                tables@.textures,
                cjf@.textures(),
            );
        }
        match &cjf.appearance {
            Some(app) => {
                match &app.materials {
                    Some(mats) => {
                        absorb_material_list(&mut self.appearance, mats, &mut tables.materials);
                    },
                    None => {},
                }
                match &app.textures {
                    Some(texs) => {
                        absorb_texture_list(&mut self.appearance, texs, &mut tables.textures);
                    },
                    None => {},
                }
                match &app.vertices_texture {
                    Some(vt) => {
                        let base = match &self.appearance {
                            Some(a) => match &a.vertices_texture {
                                Some(v) => v.len(),
                                None => 0,
                            },
                            None => 0,
                        };
                        record_places(&mut tables.texture_vertices, base, vt.len());
                        add_vertices_texture_to(&mut self.appearance, copy_items(vt));
                    },
                    None => {},
                }
            },
            None => {},
        }
        let plan = Plan { boundaries: Motion::Shift(g_offset), appearance: true };
        transfer_objects(&mut cjf.city_objects, plan, tables, 0);
        put_copies(&mut self.city_objects, &cjf.city_objects);
        let ghost a = self.vertices.deep_view();
        let ghost b = cjf.vertices.deep_view();
        self.vertices.append(&mut cjf.vertices);
        let ghost ids = self.sorted_ids.deep_view();
        let id = cjf.id.clone();
        self.sorted_ids.push(id);
        proof {
            assert(self.vertices.deep_view() =~= a + b);
            assert(cjf.vertices.deep_view() =~= Seq::<Seq<i64>>::empty());
            assert(self.sorted_ids.deep_view() =~= ids.push(id@));
        }
    }

    /// Adds the feature `cjf` to the document, with tables of its own.
    pub fn add_cjfeature(&mut self, cjf: &mut CityJSONFeature)
        requires
            old(self)@.mergeable(old(cjf)@),
        ensures
            final(self)@ == old(self)@.merged(old(cjf)@, TablesView::empty()).document,
            final(cjf)@ == old(self)@.merged(old(cjf)@, TablesView::empty()).feature,
            old(self)@.indices_valid() && old(cjf)@.indices_valid()
                ==> final(self)@.indices_valid(),
    {
        let mut tables = Tables::new();
        self.merge_feature(cjf, &mut tables);
    }
}

/// The three coordinates by which a vertex is told from another.
pub open spec fn key_of(v: Seq<i64>) -> (i64, i64, i64) {
    (v[0], v[1], v[2])
}

/// The first place among `kept` of a vertex with the coordinates `key`.
pub open spec fn key_place(kept: Seq<Seq<i64>>, key: (i64, i64, i64)) -> Option<int>
    decreases kept.len(),
{
    if kept.len() == 0 {
        None
    } else {
        match key_place(kept.drop_last(), key) {
            Some(p) => Some(p),
            None => if key_of(kept.last()) == key {
                Some(kept.len() - 1)
            } else {
                None
            },
        }
    }
}

/// What [`key_place`] finds is the first place of a vertex with the key.
pub proof fn lemma_key_place(kept: Seq<Seq<i64>>, key: (i64, i64, i64))
    ensures
        match key_place(kept, key) {
            Some(p) => 0 <= p < kept.len() && key_of(kept[p]) == key && forall|q: int|
                0 <= q < p ==> key_of(#[trigger] kept[q]) != key,
            None => forall|q: int| 0 <= q < kept.len() ==> key_of(#[trigger] kept[q]) != key,
        },
    decreases kept.len(),
{
    if kept.len() > 0 {
        lemma_key_place(kept.drop_last(), key);
        match key_place(kept.drop_last(), key) {
            Some(p) => {
                assert(kept.drop_last()[p] == kept[p]);
                assert forall|q: int| 0 <= q < p implies key_of(#[trigger] kept[q]) != key by {
                    assert(kept.drop_last()[q] == kept[q]);
                }
            },
            None => {
                assert forall|q: int| 0 <= q < kept.len() - 1 implies key_of(#[trigger] kept[q])
                    != key by {
                    assert(kept.drop_last()[q] == kept[q]);
                }
            },
        }
    }
}

/// Vertices without those that occur twice, and the new place of each
/// vertex.
pub struct Deduped {
    /// The first of each run of equal vertices, in the order of the
    /// vertices.
    pub vertices: Seq<Seq<i64>>,
    /// For each vertex, the place among `vertices` of its equal.
    pub ids: Seq<usize>,
}

/// The vertices `vs` without those that have the coordinates of an earlier
/// one.
pub open spec fn deduped(vs: Seq<Seq<i64>>) -> Deduped
    decreases vs.len(),
{
    if vs.len() == 0 {
        Deduped { vertices: Seq::empty(), ids: Seq::empty() }
    } else {
        let d = deduped(vs.drop_last());
        match key_place(d.vertices, key_of(vs.last())) {
            Some(p) => Deduped { vertices: d.vertices, ids: d.ids.push(p as usize) },
            None => Deduped {
                vertices: d.vertices.push(vs.last()),
                ids: d.ids.push(d.vertices.len() as usize),
            },
        }
    }
}

/// The table that sends each place to its new id.
pub open spec fn id_pairs(ids: Seq<usize>) -> Pairs {
    Seq::new(ids.len(), |i: int| (i as usize, ids[i]))
}

/// Whether every vertex has three coordinates at least.
pub open spec fn three_each(vs: Seq<Seq<i64>>) -> bool {
    forall|i: int| 0 <= i < vs.len() ==> (#[trigger] vs[i]).len() >= 3
}

/// The bucket of the coordinates `(x, y, z)` among `nb` buckets.
pub open spec fn bucket(x: i64, y: i64, z: i64, nb: usize) -> int {
    (((x as u64) as int) * 73856093 + ((y as u64) as int) * 19349663 + ((z as u64) as int)
        * 83492791) % (nb as int)
}

/// Computes the bucket of the coordinates `(x, y, z)`.
fn bucket_of(x: i64, y: i64, z: i64, nb: usize) -> (b: usize)
    requires
        nb > 0,
    ensures
        b == bucket(x, y, z, nb),
        b < nb,
{
    let a: u128 = (#[verifier::truncate] (x as u64)) as u128;
    let b: u128 = (#[verifier::truncate] (y as u64)) as u128;
    let c: u128 = (#[verifier::truncate] (z as u64)) as u128;
    let sum: u128 = a * 73856093 + b * 19349663 + c * 83492791;
    let r: u128 = sum % (nb as u128);
    r as usize
}

/// Looks among the vertices that `bucket` lists for one with the
/// coordinates `(x, y, z)`.
fn find_in_bucket(bucket: &Vec<usize>, kept: &Vec<Vec<i64>>, x: i64, y: i64, z: i64) -> (r: Option<
    usize,
>)
    requires
        forall|j: int| 0 <= j < bucket@.len() ==> #[trigger] bucket@[j] < kept@.len(),
        three_each(kept.deep_view()),
    ensures
        match r {
            Some(p) => p < kept@.len() && key_of(kept@[p as int]@) == (x, y, z),
            None => forall|j: int|
                0 <= j < bucket@.len() ==> key_of(kept@[#[trigger] bucket@[j] as int]@) != (
                    x,
                    y,
                    z,
                ),
        },
{
    let n = bucket.len();
    let mut j: usize = 0;
    while j < n
        invariant
            j <= n,
            n == bucket@.len(),
            forall|k: int| 0 <= k < bucket@.len() ==> #[trigger] bucket@[k] < kept@.len(),
            three_each(kept.deep_view()),
            forall|k: int| 0 <= k < j ==> key_of(kept@[#[trigger] bucket@[k] as int]@) != (x, y, z),
        decreases n - j,
    {
        let p = bucket[j];
        assert(kept.deep_view()[p as int] == kept@[p as int]@);
        let v = &kept[p];
        if v[0] == x && v[1] == y && v[2] == z {
            return Some(p);
        }
        j += 1;
    }
    None
}

/// The vertices without those that occur twice, and the table that sends
/// each place to the place of its equal.
pub fn dedup_vertices(vertices: &Vec<Vec<i64>>) -> (r: (Vec<Vec<i64>>, IdRemap))
    requires
        three_each(vertices.deep_view()),
    ensures
        r.1.wf(),
        r.0.deep_view() == deduped(vertices.deep_view()).vertices,
        r.1@ == id_pairs(deduped(vertices.deep_view()).ids),
{
    let n = vertices.len();
    let nb: usize = if n == 0 {
        1
    } else {
        n
    };
    let ghost vs = vertices.deep_view();
    let mut buckets: Vec<Vec<usize>> = Vec::new();
    let mut b: usize = 0;
    while b < nb
        invariant
            b <= nb,
            buckets@.len() == b,
            forall|k: int| 0 <= k < b ==> (#[trigger] buckets@[k])@.len() == 0,
        decreases nb - b,
    {
        buckets.push(Vec::new());
        b += 1;
    }
    let mut table = IdRemap::new();
    let mut kept: Vec<Vec<i64>> = Vec::new();
    let mut i: usize = 0;
    proof {
        assert(vs.take(0) =~= Seq::<Seq<i64>>::empty());
        assert(kept.deep_view() =~= Seq::<Seq<i64>>::empty());
        assert(table@ =~= id_pairs(Seq::<usize>::empty()));
    }
    while i < n
        invariant
            i <= n,
            n == vertices@.len(),
            nb > 0,
            vs == vertices.deep_view(),
            three_each(vs),
            buckets@.len() == nb,
            forall|k: int, j: int|
                0 <= k < nb && 0 <= j < buckets@[k]@.len() ==> #[trigger] buckets@[k]@[j]
                    < kept@.len(),
            forall|p: int|
                0 <= p < kept@.len() ==> buckets@[bucket(
                    kept@[p]@[0],
                    kept@[p]@[1],
                    kept@[p]@[2],
                    nb,
                )]@.contains(p as usize),
            three_each(kept.deep_view()),
            forall|p: int, q: int|
                0 <= p < q < kept@.len() ==> key_of(#[trigger] kept@[p]@) != key_of(
                    #[trigger] kept@[q]@,
                ),
            kept.deep_view() == deduped(vs.take(i as int)).vertices,
            table@ == id_pairs(deduped(vs.take(i as int)).ids),
            deduped(vs.take(i as int)).ids.len() == i,
            table.wf(),
        decreases n - i,
    {
        let ghost d = deduped(vs.take(i as int));
        let ghost kv = kept.deep_view();
        let v = &vertices[i];
        proof {
            assert(vs.take(i + 1).drop_last() =~= vs.take(i as int));
            assert(vs.take(i + 1).last() == vs[i as int]);
            assert(vs[i as int] == v@);
            assert(v@.len() >= 3);
            lemma_key_place(kv, key_of(v@));
            assert forall|p: int| 0 <= p < kept@.len() implies kv[p] == (#[trigger] kept@[p])@ by {}
        }
        let x = v[0];
        let y = v[1];
        let z = v[2];
        let h = bucket_of(x, y, z, nb);
        let found = find_in_bucket(&buckets[h], &kept, x, y, z);
        proof {
            assert(!crate::remap::has_old(table@, i)) by {
                if crate::remap::has_old(table@, i) {
                    let p = crate::remap::position_of(table@, i);
                    assert(table@[p].0 == p);
                }
            }
        }
        match found {
            Some(p) => {
                proof {
                    match key_place(kv, key_of(v@)) {
                        Some(q) => {
                            assert(kv[q] == kept@[q]@);
                            assert(kv[p as int] == kept@[p as int]@);
                            if q < p {
                                assert(key_of(kept@[q]@) != key_of(kept@[p as int]@));
                            } else if p < q {
                                assert(key_of(kept@[p as int]@) != key_of(kept@[q]@));
                            }
                        },
                        None => {
                            assert(kv[p as int] == kept@[p as int]@);
                        },
                    }
                }
                table.record(i, p);
                proof {
                    assert(table@ =~= id_pairs(d.ids.push(p)));
                }
            },
            None => {
                proof {
                    match key_place(kv, key_of(v@)) {
                        Some(q) => {
                            assert(kv[q] == kept@[q]@);
                            assert(buckets@[h as int]@.contains(q as usize));
                            let j = choose|j: int|
                                0 <= j < buckets@[h as int]@.len() && buckets@[h as int]@[j]
                                    == q as usize;
                            assert(key_of(kept@[buckets@[h as int]@[j] as int]@) != (x, y, z));
                        },
                        None => {},
                    }
                }
                let id = kept.len();
                table.record(i, id);
                let ghost old_buckets = buckets@;
                buckets[h].push(id);
                let c = copy_items(v);
                kept.push(c);
                proof {
                    assert(table@ =~= id_pairs(d.ids.push(id)));
                    assert(kept.deep_view() =~= kv.push(v@));
                    assert(buckets@[h as int]@ == old_buckets[h as int]@.push(id));
                    assert forall|p: int| 0 <= p < kept@.len() implies buckets@[bucket(
                        kept@[p]@[0],
                        kept@[p]@[1],
                        kept@[p]@[2],
                        nb,
                    )]@.contains(p as usize) by {
                        let bk = bucket(kept@[p]@[0], kept@[p]@[1], kept@[p]@[2], nb);
                        if p == id {
                            assert(buckets@[h as int]@[old_buckets[h as int]@.len() as int] == id);
                        } else {
                            assert(old_buckets[bk]@.contains(p as usize));
                            let j = choose|j: int|
                                0 <= j < old_buckets[bk]@.len() && old_buckets[bk]@[j] == p as usize;
                            assert(buckets@[bk]@[j] == p as usize);
                        }
                    }
                    assert forall|p: int, q: int| 0 <= p < q < kept@.len() implies key_of(
                        #[trigger] kept@[p]@,
                    ) != key_of(#[trigger] kept@[q]@) by {
                        if q == id {
                            assert(key_of(kv[p]) != key_of(v@));
                        }
                    }
                }
            },
        }
        i += 1;
    }
    proof {
        assert(vs.take(n as int) =~= vs);
    }
    (kept, table)
}

/// The least of the coordinates of the vertices on one axis; the greatest
/// integer if there is no vertex.
pub open spec fn min_coord(vs: Seq<Seq<i64>>, axis: int) -> int
    decreases vs.len(),
{
    if vs.len() == 0 {
        i64::MAX as int
    } else {
        let m = min_coord(vs.drop_last(), axis);
        if vs.last()[axis] < m {
            vs.last()[axis] as int
        } else {
            m
        }
    }
}

/// The least coordinate is no greater than any coordinate.
pub proof fn lemma_min_coord(vs: Seq<Seq<i64>>, axis: int, i: int)
    requires
        0 <= i < vs.len(),
    ensures
        min_coord(vs, axis) <= vs[i][axis],
        i64::MIN <= min_coord(vs, axis) <= i64::MAX,
    decreases vs.len(),
{
    if i < vs.len() - 1 {
        lemma_min_coord(vs.drop_last(), axis, i);
    } else if vs.len() > 1 {
        lemma_min_coord(vs.drop_last(), axis, 0);
    }
}

/// The vertex `v` moved by `-m` on its three axes, without the coordinates
/// that it has after the third.
pub open spec fn moved_vertex(v: Seq<i64>, m: Seq<int>) -> Seq<i64> {
    let x = (v[0] - m[0]) as i64;
    let y = (v[1] - m[1]) as i64;
    let z = (v[2] - m[2]) as i64;
    seq![x, y, z]
}

/// The vertices, each moved by `-m` on its three axes; coordinates after
/// the third are dropped.
pub open spec fn moved_to_origin(vs: Seq<Seq<i64>>, m: Seq<int>) -> Seq<Seq<i64>> {
    Seq::new(vs.len(), |i: int| moved_vertex(vs[i], m))
}

/// The least coordinate of vertices that are moved by `-m` is the least
/// coordinate that they had, less `m`, where every moved coordinate fits
/// the machine's integers.
pub proof fn lemma_moved_min(vs: Seq<Seq<i64>>, m: Seq<int>, axis: int)
    requires
        vs.len() > 0,
        0 <= axis < 3,
        m.len() == 3,
        three_each(vs),
        forall|i: int|
            0 <= i < vs.len() ==> i64::MIN <= (#[trigger] vs[i])[axis] - m[axis] <= i64::MAX,
    ensures
        min_coord(moved_to_origin(vs, m), axis) == min_coord(vs, axis) - m[axis],
    decreases vs.len(),
{
    let moved = moved_to_origin(vs, m);
    assert(moved.drop_last() =~= moved_to_origin(vs.drop_last(), m));
    let v = vs.last();
    assert(v == vs[vs.len() - 1]);
    assert(v.len() >= 3);
    assert(moved.last() == moved_vertex(v, m));
    assert(moved.last()[axis] == v[axis] - m[axis]);
    if vs.len() > 1 {
        assert forall|i: int| 0 <= i < vs.drop_last().len() implies i64::MIN <= (
        #[trigger] vs.drop_last()[i])[axis] - m[axis] <= i64::MAX by {
            assert(vs.drop_last()[i] == vs[i]);
        }
        assert(three_each(vs.drop_last())) by {
            assert forall|i: int| 0 <= i < vs.drop_last().len() implies (
            #[trigger] vs.drop_last()[i]).len() >= 3 by {
                assert(vs.drop_last()[i] == vs[i]);
            }
        }
        lemma_moved_min(vs.drop_last(), m, axis);
    } else {
        assert(min_coord(vs.drop_last(), axis) == i64::MAX);
        assert(min_coord(moved.drop_last(), axis) == i64::MAX);
    }
}

/// Vertices that are moved by their least coordinates have the least
/// coordinate zero on each axis.
pub proof fn lemma_moved_least(vs: Seq<Seq<i64>>, axis: int)
    requires
        vs.len() > 0,
        0 <= axis < 3,
        three_each(vs),
        forall|i: int, a: int|
            0 <= i < vs.len() && 0 <= a < 3 ==> (#[trigger] vs[i][a]) - min_coord(vs, a)
                <= i64::MAX,
    ensures
        min_coord(
            moved_to_origin(vs, seq![min_coord(vs, 0), min_coord(vs, 1), min_coord(vs, 2)]),
            axis,
        ) == 0,
{
    let m = seq![min_coord(vs, 0), min_coord(vs, 1), min_coord(vs, 2)];
    assert forall|i: int| 0 <= i < vs.len() implies i64::MIN <= (#[trigger] vs[i])[axis] - m[axis]
        <= i64::MAX by {
        lemma_min_coord(vs, axis, i);
        assert(vs[i][axis] - min_coord(vs, axis) <= i64::MAX);
    }
    lemma_moved_min(vs, m, axis);
}

impl CityJSONView {
    /// The document without the vertices that have the coordinates of an
    /// earlier one: the first of each kind stay, in order, and the vertex
    /// indices of all objects are renumbered to them. An index without a
    /// vertex gets the next id that is free.
    pub open spec fn without_duplicates(self) -> CityJSONView {
        let d = deduped(self.vertices);
        let plan = Plan::vertices();
        let t = (TablesView { vertices: id_pairs(d.ids), ..TablesView::empty() }).resolved(
            objects_need(self.city_objects, plan),
            0,
        );
        CityJSONView {
            vertices: d.vertices,
            city_objects: objects_transferred(self.city_objects, plan, t),
            ..self
        }
    }

    /// The least coordinates of the vertices on the three axes.
    pub open spec fn least(self) -> Seq<int> {
        seq![min_coord(self.vertices, 0), min_coord(self.vertices, 1), min_coord(self.vertices, 2)]
    }

    /// Whether the vertices can be moved to the origin: each has three
    /// coordinates, and the moved coordinates fit the machine's integers.
    pub open spec fn movable(self) -> bool {
        &&& three_each(self.vertices)
        &&& forall|i: int, a: int|
            0 <= i < self.vertices.len() && 0 <= a < 3 ==> (#[trigger] self.vertices[i][a])
                - min_coord(self.vertices, a) <= i64::MAX
    }
}

impl CityJSON {
    /// Removes the vertices that have the coordinates of an earlier vertex,
    /// and renumbers the vertex indices of all objects.
    pub fn remove_duplicate_vertices(&mut self)
        requires
            three_each(old(self)@.vertices),
        ensures
            final(self)@ == old(self)@.without_duplicates(),
    {
        let (kept, newids) = dedup_vertices(&self.vertices);
        let mut tables = Tables {
            vertices: newids,
            materials: IdRemap::new(),
            textures: IdRemap::new(),
            texture_vertices: IdRemap::new(),
        };
        let plan = Plan { boundaries: Motion::Renumber, appearance: false };
        assert(objects_fit(self.city_objects.deep_view(), plan));
        transfer_objects(&mut self.city_objects, plan, &mut tables, 0);
        self.vertices = kept;
    }

    /// Moves the vertices so that the least coordinate on each axis is zero,
    /// and gives the three coordinates that were subtracted: each vertex is
    /// what it was less these. Nothing else of the document changes, its
    /// transform included: who wants the document to map to the same places
    /// as before raises the translation of the transform by what was
    /// subtracted times the scale.
    pub fn move_to_origin(&mut self) -> (mins: [i64; 3])
        requires
            old(self)@.movable(),
        ensures
            mins@ =~= Seq::new(3, |a: int| old(self)@.least()[a] as i64),
            forall|a: int| 0 <= a < 3 ==> mins[a] == #[trigger] old(self)@.least()[a],
            final(self)@ == (CityJSONView {
                vertices: moved_to_origin(old(self)@.vertices, old(self)@.least()),
                ..old(self)@
            }),
            old(self)@.vertices.len() > 0 ==> final(self)@.least() =~= seq![0int, 0int, 0int],
            final(self)@.vertices.len() == old(self)@.vertices.len(),
            forall|i: int, a: int|
                0 <= i < old(self)@.vertices.len() && 0 <= a < 3 ==> (
                #[trigger] final(self)@.vertices[i][a]) + mins[a] == old(self)@.vertices[i][a],
    {
        proof {
            if self@.vertices.len() > 0 {
                lemma_moved_least(self@.vertices, 0);
                lemma_moved_least(self@.vertices, 1);
                lemma_moved_least(self@.vertices, 2);
            }
            let moved = moved_to_origin(self@.vertices, self@.least());
            assert forall|i: int, a: int| 0 <= i < self@.vertices.len() && 0 <= a < 3 implies (
            #[trigger] moved[i][a]) + self@.least()[a] == self@.vertices[i][a] by {
                lemma_min_coord(self@.vertices, a, i);
                assert(self@.vertices[i][a] - min_coord(self@.vertices, a) <= i64::MAX);
            }
        }
        let n = self.vertices.len();
        let ghost vs = self@.vertices;
        let mut m0: i64 = i64::MAX;
        let mut m1: i64 = i64::MAX;
        let mut m2: i64 = i64::MAX;
        let mut i: usize = 0;
        assert(vs.take(0) =~= Seq::<Seq<i64>>::empty());
        while i < n
            invariant
                i <= n,
                n == self.vertices@.len(),
                *self == *old(self),
                vs == self@.vertices,
                three_each(vs),
                m0 == min_coord(vs.take(i as int), 0),
                m1 == min_coord(vs.take(i as int), 1),
                m2 == min_coord(vs.take(i as int), 2),
            decreases n - i,
        {
            assert(vs.take(i + 1).drop_last() =~= vs.take(i as int));
            assert(vs[i as int] == self.vertices@[i as int]@);
            let v = &self.vertices[i];
            if v[0] < m0 {
                m0 = v[0];
            }
            if v[1] < m1 {
                m1 = v[1];
            }
            if v[2] < m2 {
                m2 = v[2];
            }
            i += 1;
        }
        assert(vs.take(n as int) =~= vs);
        let mut newvertices: Vec<Vec<i64>> = Vec::new();
        let mut j: usize = 0;
        while j < n
            invariant
                j <= n,
                n == self.vertices@.len(),
                *self == *old(self),
                vs == self@.vertices,
                self@.movable(),
                m0 == min_coord(vs, 0),
                m1 == min_coord(vs, 1),
                m2 == min_coord(vs, 2),
                newvertices@.len() == j,
                forall|k: int|
                    0 <= k < j ==> (#[trigger] newvertices@[k])@ == moved_to_origin(
                        vs,
                        old(self)@.least(),
                    )[k],
            decreases n - j,
        {
            assert(vs[j as int] == self.vertices@[j as int]@);
            proof {
                lemma_min_coord(vs, 0, j as int);
                lemma_min_coord(vs, 1, j as int);
                lemma_min_coord(vs, 2, j as int);
                assert(vs[j as int][0] - min_coord(vs, 0) <= i64::MAX);
                assert(vs[j as int][1] - min_coord(vs, 1) <= i64::MAX);
                assert(vs[j as int][2] - min_coord(vs, 2) <= i64::MAX);
            }
            let v = &self.vertices[j];
            let x: i64 = v[0] - m0;
            let y: i64 = v[1] - m1;
            let z: i64 = v[2] - m2;
            let moved: Vec<i64> = vec![x, y, z];
            assert(moved@ =~= moved_to_origin(vs, old(self)@.least())[j as int]);
            newvertices.push(moved);
            j += 1;
        }
        assert forall|k: int| 0 <= k < n implies newvertices.deep_view()[k] == moved_to_origin(
            vs,
            old(self)@.least(),
        )[k] by {
            assert(newvertices@[k].deep_view() =~= newvertices@[k]@);
        }
        assert(newvertices.deep_view() =~= moved_to_origin(vs, old(self)@.least()));
        self.vertices = newvertices;
        [m0, m1, m2]
    }
}

/// Whether no two of the vertices have the same coordinates.
pub open spec fn keys_differ(vs: Seq<Seq<i64>>) -> bool {
    forall|p: int, q: int|
        0 <= p < q < vs.len() ==> key_of(#[trigger] vs[p]) != key_of(#[trigger] vs[q])
}

/// What is left after the removal has no two vertices with the same
/// coordinates.
pub proof fn lemma_deduped_differ(vs: Seq<Seq<i64>>)
    ensures
        keys_differ(deduped(vs).vertices),
        deduped(vs).ids.len() == vs.len(),
        deduped(vs).vertices.len() <= vs.len(),
    decreases vs.len(),
{
    if vs.len() > 0 {
        let d0 = deduped(vs.drop_last());
        let d = deduped(vs);
        lemma_deduped_differ(vs.drop_last());
        lemma_key_place(d0.vertices, key_of(vs.last()));
        assert forall|p: int, q: int| 0 <= p < q < d.vertices.len() implies key_of(
            #[trigger] d.vertices[p],
        ) != key_of(#[trigger] d.vertices[q]) by {
            if q < d0.vertices.len() {
                assert(d.vertices[p] == d0.vertices[p]);
                assert(d.vertices[q] == d0.vertices[q]);
            } else {
                assert(d.vertices[p] == d0.vertices[p]);
            }
        }
    }
}

/// Every vertex has a new place among what is left after the removal, and
/// the vertex there has its coordinates.
pub proof fn lemma_deduped(vs: Seq<Seq<i64>>)
    requires
        vs.len() <= usize::MAX,
    ensures
        deduped(vs).ids.len() == vs.len(),
        deduped(vs).vertices.len() <= vs.len(),
        forall|i: int|
            0 <= i < vs.len() ==> (#[trigger] deduped(vs).ids[i]) < deduped(vs).vertices.len()
                && key_of(deduped(vs).vertices[deduped(vs).ids[i] as int]) == key_of(vs[i]),
    decreases vs.len(),
{
    if vs.len() > 0 {
        let d0 = deduped(vs.drop_last());
        let d = deduped(vs);
        lemma_deduped(vs.drop_last());
        lemma_key_place(d0.vertices, key_of(vs.last()));
        assert forall|i: int| 0 <= i < vs.len() implies (#[trigger] d.ids[i]) < d.vertices.len()
            && key_of(d.vertices[d.ids[i] as int]) == key_of(vs[i]) by {
            if i < vs.len() - 1 {
                assert(d.ids[i] == d0.ids[i]);
                assert(vs.drop_last()[i] == vs[i]);
                assert(d.vertices[d0.ids[i] as int] == d0.vertices[d0.ids[i] as int]);
            }
        }
    }
}

/// Of vertices of which no two have the same coordinates, none is removed.
pub proof fn lemma_deduped_of_different(vs: Seq<Seq<i64>>)
    requires
        keys_differ(vs),
    ensures
        deduped(vs).vertices == vs,
    decreases vs.len(),
{
    if vs.len() > 0 {
        assert forall|p: int, q: int| 0 <= p < q < vs.drop_last().len() implies key_of(
            #[trigger] vs.drop_last()[p],
        ) != key_of(#[trigger] vs.drop_last()[q]) by {
            assert(vs.drop_last()[p] == vs[p]);
            assert(vs.drop_last()[q] == vs[q]);
        }
        lemma_deduped_of_different(vs.drop_last());
        lemma_key_place(vs.drop_last(), key_of(vs.last()));
        match key_place(vs.drop_last(), key_of(vs.last())) {
            Some(p) => {
                assert(vs.drop_last()[p] == vs[p]);
                assert(key_of(vs[p]) != key_of(vs[vs.len() - 1]));
            },
            None => {},
        }
        assert(deduped(vs).vertices =~= vs);
    } else {
        assert(deduped(vs).vertices =~= vs);
    }
}

/// The table of the new places records each place below the number of
/// vertices, and its new place for it.
pub proof fn lemma_id_pairs(ids: Seq<usize>, x: usize)
    requires
        ids.len() <= usize::MAX,
    ensures
        crate::remap::has_old(id_pairs(ids), x) <==> x < ids.len(),
        x < ids.len() ==> crate::remap::new_of(id_pairs(ids), x) == ids[x as int],
        crate::remap::keys_unique(id_pairs(ids)),
{
    let t = id_pairs(ids);
    if x < ids.len() {
        assert(t[x as int].0 == x);
        crate::remap::lemma_position(t, x as int);
    }
    if crate::remap::has_old(t, x) {
        let p = crate::remap::position_of(t, x);
        assert(t[p].0 == p as usize);
    }
}

/// The first of the materials that is not valid.
pub open spec fn first_invalid_material(mats: Seq<MaterialObject>) -> Option<int>
    decreases mats.len(),
{
    if mats.len() == 0 {
        None
    } else {
        match first_invalid_material(mats.drop_last()) {
            Some(i) => Some(i),
            None => if mats.last().valid() {
                None
            } else {
                Some(mats.len() - 1)
            },
        }
    }
}

/// The first of the textures that is not valid.
pub open spec fn first_invalid_texture(texs: Seq<TextureObject>) -> Option<int>
    decreases texs.len(),
{
    if texs.len() == 0 {
        None
    } else {
        match first_invalid_texture(texs.drop_last()) {
            Some(i) => Some(i),
            None => if texs.last().valid() {
                None
            } else {
                Some(texs.len() - 1)
            },
        }
    }
}

/// There is a first material that is not valid unless all are valid.
pub proof fn lemma_first_invalid_material(mats: Seq<MaterialObject>)
    ensures
        match first_invalid_material(mats) {
            Some(i) => 0 <= i < mats.len() && !mats[i].valid(),
            None => materials_valid(mats),
        },
    decreases mats.len(),
{
    if mats.len() > 0 {
        lemma_first_invalid_material(mats.drop_last());
        match first_invalid_material(mats.drop_last()) {
            Some(i) => {
                assert(mats.drop_last()[i] == mats[i]);
            },
            None => {
                assert forall|i: int| 0 <= i < mats.len() - 1 implies (#[trigger] mats[i]).valid() by {
                    assert(mats.drop_last()[i] == mats[i]);
                }
            },
        }
    }
}

/// There is a first texture that is not valid unless all are valid.
pub proof fn lemma_first_invalid_texture(texs: Seq<TextureObject>)
    ensures
        match first_invalid_texture(texs) {
            Some(i) => 0 <= i < texs.len() && !texs[i].valid(),
            None => textures_valid(texs),
        },
    decreases texs.len(),
{
    if texs.len() > 0 {
        lemma_first_invalid_texture(texs.drop_last());
        match first_invalid_texture(texs.drop_last()) {
            Some(i) => {
                assert(texs.drop_last()[i] == texs[i]);
            },
            None => {
                assert forall|i: int| 0 <= i < texs.len() - 1 implies (#[trigger] texs[i]).valid() by {
                    assert(texs.drop_last()[i] == texs[i]);
                }
            },
        }
    }
}

/// A material that is not valid among the first `n` is the first that is
/// not valid among all.
pub proof fn lemma_first_invalid_material_prefix(mats: Seq<MaterialObject>, n: int)
    requires
        0 <= n <= mats.len(),
        first_invalid_material(mats.take(n)) is Some,
    ensures
        first_invalid_material(mats) == first_invalid_material(mats.take(n)),
    decreases mats.len() - n,
{
    if n < mats.len() {
        assert(mats.take(n + 1).drop_last() =~= mats.take(n));
        lemma_first_invalid_material_prefix(mats, n + 1);
    } else {
        assert(mats.take(n) =~= mats);
    }
}

/// A texture that is not valid among the first `n` is the first that is not
/// valid among all.
pub proof fn lemma_first_invalid_texture_prefix(texs: Seq<TextureObject>, n: int)
    requires
        0 <= n <= texs.len(),
        first_invalid_texture(texs.take(n)) is Some,
    ensures
        first_invalid_texture(texs) == first_invalid_texture(texs.take(n)),
    decreases texs.len() - n,
{
    if n < texs.len() {
        assert(texs.take(n + 1).drop_last() =~= texs.take(n));
        lemma_first_invalid_texture_prefix(texs, n + 1);
    } else {
        assert(texs.take(n) =~= texs);
    }
}

impl CityJSONView {
    /// What stands against adding the feature `f`: the field at fault and
    /// what is wrong with it. The first material that is not valid, else the
    /// first texture that is not valid, else a vertex index that cannot be
    /// raised, else texture vertices whose new places do not fit the
    /// machine's integers.
    pub open spec fn merge_fault(self, f: CityJSONFeatureView) -> Option<(Seq<char>, Seq<char>)> {
        let plan = Plan::merge(self.vertices.len() as usize);
        match first_invalid_material(f.materials()) {
            Some(i) => Some((f.materials()[i].fault()->0, "must be between 0.0 and 1.0"@)),
            None => match first_invalid_texture(f.textures()) {
                Some(j) => Some(("border_color"@, border_reason(f.textures()[j].fault()->0))),
                None => if !objects_fit(f.city_objects, plan) {
                    Some(("boundaries"@, "vertex index too large"@))
                } else if or_empty(self.appearance).vertex_list().len() + f.uv_count()
                    > usize::MAX {
                    Some(("texture"@, "too many texture vertices"@))
                } else {
                    None
                },
            },
        }
    }
}

/// A feature can be added if and only if nothing stands against it.
pub proof fn lemma_merge_fault(d: CityJSONView, f: CityJSONFeatureView)
    ensures
        d.merge_fault(f) is None <==> d.mergeable(f),
{
    lemma_first_invalid_material(f.materials());
    lemma_first_invalid_texture(f.textures());
}

/// The first fault among the materials, if one of them is not valid.
fn check_materials(mats: &Vec<MaterialObject>) -> (r: Result<()>)
    ensures
        match first_invalid_material(mats@) {
            Some(i) => r matches Err(CjseqError::InvalidValue { field, reason }) && field@
                == mats@[i].fault()->0 && reason@ == "must be between 0.0 and 1.0"@,
            None => r is Ok,
        },
{
    let n = mats.len();
    let mut i: usize = 0;
    assert(mats@.take(0) =~= Seq::<MaterialObject>::empty());
    while i < n
        invariant
            i <= n,
            n == mats@.len(),
            first_invalid_material(mats@.take(i as int)) is None,
        decreases n - i,
    {
        assert(mats@.take(i + 1).drop_last() =~= mats@.take(i as int));
        match mats[i].validate() {
            Ok(_) => {},
            Err(e) => {
                proof {
                    lemma_first_invalid_material_prefix(mats@, i + 1);
                }
                return Err(e);
            },
        }
        i += 1;
    }
    assert(mats@.take(n as int) =~= mats@);
    Ok(())
}

/// The first fault among the textures, if one of them is not valid.
fn check_textures(texs: &Vec<TextureObject>) -> (r: Result<()>)
    ensures
        match first_invalid_texture(texs@) {
            Some(i) => r matches Err(CjseqError::InvalidValue { field, reason }) && field@
                == "border_color"@ && reason@ == border_reason(texs@[i].fault()->0),
            None => r is Ok,
        },
{
    let n = texs.len();
    let mut i: usize = 0;
    assert(texs@.take(0) =~= Seq::<TextureObject>::empty());
    while i < n
        invariant
            i <= n,
            n == texs@.len(),
            first_invalid_texture(texs@.take(i as int)) is None,
        decreases n - i,
    {
        assert(texs@.take(i + 1).drop_last() =~= texs@.take(i as int));
        match texs[i].validate() {
            Ok(_) => {},
            Err(e) => {
                proof {
                    lemma_first_invalid_texture_prefix(texs@, i + 1);
                }
                return Err(e);
            },
        }
        i += 1;
    }
    assert(texs@.take(n as int) =~= texs@);
    Ok(())
}

impl CityJSON {
    /// Tells whether the feature `cjf` can be added, and what stands
    /// against it if it cannot.
    pub fn check_merge(&self, cjf: &CityJSONFeature) -> (r: Result<()>)
        ensures
            match self@.merge_fault(cjf@) {
                Some(f) => r matches Err(CjseqError::InvalidValue { field, reason }) && field@
                    == f.0 && reason@ == f.1,
                None => r is Ok,
            },
            r is Ok <==> self@.mergeable(cjf@),
    {
        proof {
            lemma_merge_fault(self@, cjf@);
            assert(first_invalid_material(Seq::<MaterialObject>::empty()) is None);
            assert(first_invalid_texture(Seq::<TextureObject>::empty()) is None);
        }
        let mut uv_count: usize = 0;
        match &cjf.appearance {
            Some(app) => {
                match &app.materials {
                    Some(mats) => {
                        match check_materials(mats) {
                            Ok(_) => {},
                            Err(e) => {
                                return Err(e);
                            },
                        }
                    },
                    None => {},
                }
                match &app.textures {
                    Some(texs) => {
                        match check_textures(texs) {
                            Ok(_) => {},
                            Err(e) => {
                                return Err(e);
                            },
                        }
                    },
                    None => {},
                }
                match &app.vertices_texture {
                    Some(vt) => {
                        uv_count = vt.len();
                    },
                    None => {},
                }
            },
            None => {},
        }
        let plan = Plan { boundaries: Motion::Shift(self.vertices.len()), appearance: true };
        let tables = Tables::new();
        let can = can_transfer_objects(&cjf.city_objects, plan, &tables, 0);
        if !can.0 {
            return Err(
                CjseqError::InvalidValue {
                    field: String::from_str("boundaries"),
                    reason: String::from_str("vertex index too large"),
                },
            );
        }
        let base = match &self.appearance {
            Some(a) => match &a.vertices_texture {
                Some(v) => v.len(),
                None => 0,
            },
            None => 0,
        };
        if base.checked_add(uv_count).is_none() {
            return Err(
                CjseqError::InvalidValue {
                    field: String::from_str("texture"),
                    reason: String::from_str("too many texture vertices"),
                },
            );
        }
        Ok(())
    }

    /// Adds the feature `cjf` to the document, with tables of its own, if it
    /// can be added; else says what stands against it and changes nothing.
    pub fn try_add_cjfeature(&mut self, cjf: &mut CityJSONFeature) -> (r: Result<()>)
        ensures
            match old(self)@.merge_fault(old(cjf)@) {
                Some(f) => r matches Err(CjseqError::InvalidValue { field, reason }) && field@
                    == f.0 && reason@ == f.1 && final(self)@ == old(self)@ && final(cjf)@ == old(
                    cjf,
                )@,
                None => r is Ok && final(self)@ == old(self)@.merged(
                    old(cjf)@,
                    TablesView::empty(),
                ).document && final(cjf)@ == old(self)@.merged(
                    old(cjf)@,
                    TablesView::empty(),
                ).feature,
            },
            old(self)@.indices_valid() && old(cjf)@.indices_valid()
                ==> final(self)@.indices_valid(),
    {
        let mut tables = Tables::new();
        match self.check_merge(cjf) {
            Ok(_) => {
                self.merge_feature(cjf, &mut tables);
                Ok(())
            },
            Err(e) => Err(e),
        }
    }

    /// Tells whether every vertex has three coordinates at least.
    pub fn has_triples(&self) -> (b: bool)
        ensures
            b == three_each(self@.vertices),
    {
        let n = self.vertices.len();
        let mut i: usize = 0;
        while i < n
            invariant
                i <= n,
                n == self.vertices@.len(),
                forall|j: int| 0 <= j < i ==> (#[trigger] self@.vertices[j]).len() >= 3,
            decreases n - i,
        {
            assert(self@.vertices[i as int] == self.vertices@[i as int]@);
            if self.vertices[i].len() < 3 {
                return false;
            }
            i += 1;
        }
        true
    }

    /// Tells whether the vertices can be moved to the origin.
    pub fn is_movable(&self) -> (b: bool)
        ensures
            b == self@.movable(),
    {
        if !self.has_triples() {
            return false;
        }
        let n = self.vertices.len();
        let ghost vs = self@.vertices;
        let mut m0: i64 = i64::MAX;
        let mut m1: i64 = i64::MAX;
        let mut m2: i64 = i64::MAX;
        let mut i: usize = 0;
        assert(vs.take(0) =~= Seq::<Seq<i64>>::empty());
        while i < n
            invariant
                i <= n,
                n == self.vertices@.len(),
                vs == self@.vertices,
                three_each(vs),
                m0 == min_coord(vs.take(i as int), 0),
                m1 == min_coord(vs.take(i as int), 1),
                m2 == min_coord(vs.take(i as int), 2),
            decreases n - i,
        {
            assert(vs.take(i + 1).drop_last() =~= vs.take(i as int));
            assert(vs[i as int] == self.vertices@[i as int]@);
            let v = &self.vertices[i];
            if v[0] < m0 {
                m0 = v[0];
            }
            if v[1] < m1 {
                m1 = v[1];
            }
            if v[2] < m2 {
                m2 = v[2];
            }
            i += 1;
        }
        assert(vs.take(n as int) =~= vs);
        let mut j: usize = 0;
        while j < n
            invariant
                j <= n,
                n == self.vertices@.len(),
                vs == self@.vertices,
                three_each(vs),
                m0 == min_coord(vs, 0),
                m1 == min_coord(vs, 1),
                m2 == min_coord(vs, 2),
                forall|k: int, a: int|
                    0 <= k < j && 0 <= a < 3 ==> (#[trigger] vs[k][a]) - min_coord(vs, a)
                        <= i64::MAX,
            decreases n - j,
        {
            assert(vs[j as int] == self.vertices@[j as int]@);
            let v = &self.vertices[j];
            if v[0].checked_sub(m0).is_none() || v[1].checked_sub(m1).is_none() || v[2].checked_sub(
                m2,
            ).is_none() {
                proof {
                    lemma_min_coord(vs, 0, j as int);
                    lemma_min_coord(vs, 1, j as int);
                    lemma_min_coord(vs, 2, j as int);
                    if v[0] - m0 > i64::MAX {
                        assert(!(vs[j as int][0] - min_coord(vs, 0) <= i64::MAX));
                    } else if v[1] - m1 > i64::MAX {
                        assert(!(vs[j as int][1] - min_coord(vs, 1) <= i64::MAX));
                    } else {
                        assert(!(vs[j as int][2] - min_coord(vs, 2) <= i64::MAX));
                    }
                }
                return false;
            }
            j += 1;
        }
        true
    }
}

/// The document that comes of adding the features `fs` to `h`, in order,
/// each with tables of its own.
pub open spec fn collected(h: CityJSONView, fs: Seq<CityJSONFeatureView>) -> CityJSONView
    decreases fs.len(),
{
    if fs.len() == 0 {
        h
    } else {
        collected(h, fs.drop_last()).merged(fs.last(), TablesView::empty()).document
    }
}

/// The first of the features that cannot be added to what the features
/// before it gave.
pub open spec fn first_unmergeable(h: CityJSONView, fs: Seq<CityJSONFeatureView>) -> Option<int>
    decreases fs.len(),
{
    if fs.len() == 0 {
        None
    } else {
        match first_unmergeable(h, fs.drop_last()) {
            Some(k) => Some(k),
            None => if collected(h, fs.drop_last()).mergeable(fs.last()) {
                None
            } else {
                Some(fs.len() - 1)
            },
        }
    }
}

/// A feature that cannot be added among the first `m` is the first that
/// cannot be added among all.
pub proof fn lemma_first_unmergeable(h: CityJSONView, fs: Seq<CityJSONFeatureView>, m: int)
    requires
        0 <= m <= fs.len(),
        first_unmergeable(h, fs.take(m)) is Some,
    ensures
        first_unmergeable(h, fs) == first_unmergeable(h, fs.take(m)),
    decreases fs.len() - m,
{
    if m < fs.len() {
        assert(fs.take(m + 1).drop_last() =~= fs.take(m));
        lemma_first_unmergeable(h, fs, m + 1);
    } else {
        assert(fs.take(m) =~= fs);
    }
}

/// Joins the header and the features of a stream into one document: each
/// feature is added in turn, and then the vertices that occur twice are
/// removed. Nothing comes of it if one of the features cannot be added, or
/// if a vertex has fewer than three coordinates; the error says what stands
/// against the first such feature, or names the vertices.
pub fn cjseq_to_cj(base_cj: CityJSON, features: Vec<CityJSONFeature>) -> (r: Result<CityJSON>)
    ensures
        match first_unmergeable(base_cj@, features.deep_view()) {
            Some(k) => r matches Err(CjseqError::InvalidValue { field, reason }) && Some(
                (field@, reason@),
            ) == collected(base_cj@, features.deep_view().take(k)).merge_fault(
                features.deep_view()[k],
            ),
            None => if three_each(collected(base_cj@, features.deep_view()).vertices) {
                r matches Ok(d) && d@ == collected(
                    base_cj@,
                    features.deep_view(),
                ).without_duplicates()
            } else {
                r matches Err(CjseqError::InvalidValue { field, reason }) && field@ == "vertices"@
                    && reason@ == "fewer than three coordinates"@
            },
        },
{
    let mut document = base_cj;
    let ghost h = base_cj@;
    let ghost fs = features.deep_view();
    let mut items = features;
    let n = items.len();
    let mut i: usize = 0;
    assert(fs.take(0) =~= Seq::<CityJSONFeatureView>::empty());
    while i < n
        invariant
            i <= n,
            n == items@.len(),
            h == base_cj@,
            fs == features.deep_view(),
            fs.len() == n,
            forall|j: int| i <= j < n ==> (#[trigger] items@[j])@ == fs[j],
            document@ == collected(h, fs.take(i as int)),
            first_unmergeable(h, fs.take(i as int)) is None,
        decreases n - i,
    {
        proof {
            assert(fs.take(i + 1).drop_last() =~= fs.take(i as int));
            assert(fs.take(i + 1).last() == fs[i as int]);
            lemma_merge_fault(document@, fs[i as int]);
        }
        match document.try_add_cjfeature(&mut items[i]) {
            Ok(_) => {},
            Err(e) => {
                proof {
                    assert(first_unmergeable(h, fs.take(i + 1)) == Some(i as int));
                    lemma_first_unmergeable(h, fs, i + 1);
                    assert(fs.take(i as int) == features.deep_view().take(i as int));
                }
                return Err(e);
            },
        }
        i += 1;
    }
    assert(fs.take(n as int) =~= fs);
    if !document.has_triples() {
        return Err(
            CjseqError::InvalidValue {
                field: String::from_str("vertices"),
                reason: String::from_str("fewer than three coordinates"),
            },
        );
    }
    document.remove_duplicate_vertices();
    Ok(document)
}

} // verus!
