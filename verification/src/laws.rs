//! What holds of cutting a document into features and of joining features
//! into a document, whatever the document.

use crate::appearance::{picked, MaterialObject, TextureObject};
use crate::cityjson::{lemma_none_missing, toplevel_keys, CityJSONFeatureView, CityJSONView};
use crate::cityobject::{
    lemma_object_below_more, lemma_object_covers, lemma_object_renumbered_within,
    lemma_object_shifted_below, lemma_objects_need_below, object_need_fn, objects_below,
    objects_fit, objects_need, objects_transferred, Objects,
};
use crate::merge::{
    deduped, id_pairs, lemma_deduped, lemma_deduped_differ, lemma_deduped_of_different,
    lemma_id_pairs,
};
use crate::namemap::{find_in, gathered, lemma_gathered_is_put_all, lemma_put_all_from};
use crate::nested::{lands_below, lemma_below_more, lemma_dense_lands};
use crate::remap::{
    has_old, ids_below, lemma_resolve_all, lemma_resolve_all_count, lemma_resolve_all_exact,
    new_of, position_of, resolve_all,
};
use crate::tables::{lemma_all_need_covers, lemma_resolved, Plan, TablesView};
use vstd::prelude::*;

verus! {

impl CityJSONView {
    /// Whether every vertex index of every object is the place of a vertex.
    pub open spec fn indices_valid(self) -> bool {
        objects_below(self.city_objects, self.vertices.len() as int)
    }
}

impl CityJSONFeatureView {
    /// Whether every vertex index of every object is the place of a vertex.
    pub open spec fn indices_valid(self) -> bool {
        objects_below(self.city_objects, self.vertices.len() as int)
    }
}

/// In a feature that is cut out of a document, every vertex index is the
/// place of a vertex of the feature, whatever the document.
pub proof fn law_split_indices_valid(d: CityJSONView, i: int)
    ensures
        d.feature(i).indices_valid(),
{
    let plan = Plan::split();
    let fam = d.family(i);
    let t = d.feature_tables(i);
    let n = t.vertices.len() as int;
    let need = objects_need(fam, plan);
    lemma_resolved(TablesView::empty(), need, 0);
    lemma_resolve_all_count(need.vertices, usize::MAX + 1);
    lemma_resolve_all(Seq::empty(), need.vertices, 0);
    let done = objects_transferred(fam, plan, t);
    assert forall|j: int| 0 <= j < done.len() implies (#[trigger] done[j]).1.below(n) by {
        let o = fam[j].1;
        lemma_all_need_covers(fam, object_need_fn(plan), t, j);
        lemma_object_covers(o, plan, t);
        match o.geometry {
            Some(gs) => {
                assert forall|g: int| 0 <= g < gs.len() implies lands_below(
                    t.vertices,
                    (#[trigger] gs[g]).boundaries.vertex_ids(),
                    n,
                ) by {
                    lemma_dense_lands(t.vertices, gs[g].boundaries.vertex_ids());
                }
            },
            None => {},
        }
        lemma_object_renumbered_within(o, plan, t, n);
    }
    let all = gathered(done);
    lemma_gathered_is_put_all(done);
    assert forall|k: int| 0 <= k < all.len() implies (#[trigger] all[k]).1.below(n) by {
        lemma_put_all_from(Seq::empty(), done, k);
        let j = choose|j: int| 0 <= j < done.len() && all[k] == done[j];
        assert(done[j].1.below(n));
    }
}

/// A feature can be cut out of a document that holds what the feature
/// refers to: an object under the name of each child of its top-level
/// object, a vertex for every vertex index of these objects, and, in each
/// list that the appearance of the document has, an item for every
/// reference of these objects into it.
pub proof fn law_split_succeeds(d: CityJSONView, i: int)
    requires
        d.has_feature(i),
        forall|j: int|
            0 <= j < d.family_keys(i).len() ==> find_in(
                d.city_objects,
                #[trigger] d.family_keys(i)[j],
            ) is Some,
        objects_below(d.family(i), d.vertices.len() as int),
        d.appearance is Some && d.appearance->0.materials is Some ==> ids_below(
            objects_need(d.family(i), Plan::split()).materials,
            d.appearance->0.materials->0.len() as int,
        ),
        d.appearance is Some && d.appearance->0.textures is Some ==> ids_below(
            objects_need(d.family(i), Plan::split()).textures,
            d.appearance->0.textures->0.len() as int,
        ),
        d.appearance is Some && d.appearance->0.vertices_texture is Some ==> ids_below(
            objects_need(d.family(i), Plan::split()).texture_vertices,
            d.appearance->0.vertices_texture->0.len() as int,
        ),
    ensures
        d.splittable(i),
{
    let need = objects_need(d.family(i), Plan::split());
    lemma_none_missing(d.city_objects, d.family_keys(i));
    lemma_objects_need_below(d.family(i), Plan::split(), d.vertices.len() as int);
    lemma_resolve_all_count(need.vertices, d.vertices.len() as int);
    match d.appearance {
        Some(a) => {
            if a.materials is Some {
                lemma_resolve_all_count(need.materials, a.materials->0.len() as int);
            }
            if a.textures is Some {
                lemma_resolve_all_count(need.textures, a.textures->0.len() as int);
            }
            if a.vertices_texture is Some {
                lemma_resolve_all_count(need.texture_vertices, a.vertices_texture->0.len() as int);
            }
        },
        None => {},
    }
}

/// A document in which every vertex index is the place of a vertex stays
/// such a document when a feature of that kind is added to it whose indices
/// can be raised by the number of vertices of the document.
pub proof fn lemma_merge_indices_valid(d: CityJSONView, f: CityJSONFeatureView, t: TablesView)
    requires
        d.indices_valid(),
        f.indices_valid(),
        objects_fit(f.city_objects, Plan::merge(d.vertices.len() as usize)),
        d.vertices.len() <= usize::MAX,
    ensures
        d.merged(f, t).document.indices_valid(),
{
    let k = d.vertices.len() as usize;
    let plan = Plan::merge(k);
    let m = d.merged(f, t);
    let objs = m.feature.city_objects;
    let n = (d.vertices.len() + f.vertices.len()) as int;
    assert forall|j: int| 0 <= j < objs.len() implies (#[trigger] objs[j]).1.below(n) by {
        let o = f.city_objects[j].1;
        assert(o.below(f.vertices.len() as int));
        assert(o.fits(plan));
        lemma_object_shifted_below(o, plan, m.tables, f.vertices.len() as int);
    }
    let all = m.document.city_objects;
    assert forall|i: int| 0 <= i < all.len() implies (#[trigger] all[i]).1.below(n) by {
        lemma_put_all_from(d.city_objects, objs, i);
        if exists|j: int| 0 <= j < objs.len() && all[i] == objs[j] {
            let j = choose|j: int| 0 <= j < objs.len() && all[i] == objs[j];
            assert(objs[j].1.below(n));
        } else {
            let j = choose|j: int| 0 <= j < d.city_objects.len() && all[i] == d.city_objects[j];
            assert(d.city_objects[j].1.below(d.vertices.len() as int));
            lemma_object_below_more(d.city_objects[j].1, d.vertices.len() as int, n);
        }
    }
}

/// Where each of the first `n` features of a document can be cut out, none
/// of them is the first that cannot.
pub proof fn law_all_cut(d: CityJSONView, n: int)
    requires
        0 <= n <= d.sorted_ids.len(),
        forall|x: int| 0 <= x < n ==> d.splittable(x),
    ensures
        d.first_unsplittable(n) is None,
    decreases n,
{
    if n > 0 {
        law_all_cut(d, n - 1);
        assert(d.splittable(n - 1));
    }
}

/// The vertex indices of a feature that are all places of its vertices can
/// be raised by `k` as long as an index can tell its vertices and `k` more
/// apart.
pub proof fn lemma_valid_fits(f: CityJSONFeatureView, k: usize)
    requires
        f.indices_valid(),
        f.vertices.len() + k <= u32::MAX + 1,
    ensures
        objects_fit(f.city_objects, Plan::merge(k)),
{
    let plan = Plan::merge(k);
    assert forall|j: int| 0 <= j < f.city_objects.len() implies (#[trigger] f.city_objects[j]).1.fits(
        plan,
    ) by {
        let o = f.city_objects[j].1;
        assert(o.below(f.vertices.len() as int));
        match o.geometry {
            Some(gs) => {
                assert forall|g: int| 0 <= g < gs.len() implies (#[trigger] gs[g]).fits(plan) by {
                    assert(gs[g].boundaries.below(f.vertices.len() as int));
                    lemma_below_more(gs[g].boundaries, f.vertices.len() as int, u32::MAX + 1 - k);
                }
            },
            None => {},
        }
    }
}

/// A document in which every vertex index is the place of a vertex stays
/// such a document when a feature of that kind is added to it, as long as
/// an index can tell the vertices of the two apart; and the indices of the
/// feature can then be raised by the number of vertices of the document.
pub proof fn law_merge_indices_valid(d: CityJSONView, f: CityJSONFeatureView, t: TablesView)
    requires
        d.indices_valid(),
        f.indices_valid(),
        d.vertices.len() + f.vertices.len() <= u32::MAX,
    ensures
        objects_fit(f.city_objects, Plan::merge(d.vertices.len() as usize)),
        d.merged(f, t).document.indices_valid(),
{
    lemma_valid_fits(f, d.vertices.len() as usize);
    lemma_merge_indices_valid(d, f, t);
}

/// A document in which every vertex index is the place of a vertex stays
/// such a document when the vertices that occur twice are removed.
pub proof fn law_dedup_indices_valid(d: CityJSONView)
    requires
        d.indices_valid(),
        d.vertices.len() <= usize::MAX,
    ensures
        d.without_duplicates().indices_valid(),
{
    let dd = deduped(d.vertices);
    let plan = Plan::vertices();
    let t0 = TablesView { vertices: id_pairs(dd.ids), ..TablesView::empty() };
    let need = objects_need(d.city_objects, plan);
    let t = t0.resolved(need, 0);
    let n = dd.vertices.len() as int;
    lemma_deduped(d.vertices);
    lemma_id_pairs(dd.ids, 0);
    lemma_resolve_all(t0.vertices, need.vertices, 0);
    let done = d.without_duplicates().city_objects;
    assert forall|j: int| 0 <= j < done.len() implies (#[trigger] done[j]).1.below(n) by {
        let o = d.city_objects[j].1;
        assert(o.below(d.vertices.len() as int));
        match o.geometry {
            Some(gs) => {
                assert forall|g: int| 0 <= g < gs.len() implies lands_below(
                    t.vertices,
                    (#[trigger] gs[g]).boundaries.vertex_ids(),
                    n,
                ) by {
                    let ids = gs[g].boundaries.vertex_ids();
                    assert(gs[g].boundaries.below(d.vertices.len() as int));
                    assert forall|x: int| 0 <= x < ids.len() implies new_of(
                        t.vertices,
                        #[trigger] ids[x],
                    ) < n by {
                        lemma_id_pairs(dd.ids, ids[x]);
                        assert(has_old(t0.vertices, ids[x]));
                        assert(dd.ids[ids[x] as int] < n);
                    }
                }
            },
            None => {},
        }
        lemma_object_renumbered_within(o, plan, t, n);
    }
}

/// The names of the objects without a parent do not change when the objects
/// are transferred.
pub proof fn lemma_transfer_keeps_toplevel(os: Objects, plan: Plan, t: TablesView)
    ensures
        toplevel_keys(objects_transferred(os, plan, t)) == toplevel_keys(os),
        objects_transferred(os, plan, t).len() == os.len(),
    decreases os.len(),
{
    if os.len() > 0 {
        lemma_transfer_keeps_toplevel(os.drop_last(), plan, t);
        assert(objects_transferred(os, plan, t).drop_last() =~= objects_transferred(
            os.drop_last(),
            plan,
            t,
        ));
    }
}

/// Removing the vertices that occur twice a second time changes neither the
/// vertices nor the number of objects nor the objects without a parent.
pub proof fn law_dedup_idempotent(d: CityJSONView)
    ensures
        d.without_duplicates().without_duplicates().vertices == d.without_duplicates().vertices,
        d.without_duplicates().without_duplicates().city_objects.len()
            == d.without_duplicates().city_objects.len(),
        toplevel_keys(d.without_duplicates().without_duplicates().city_objects) == toplevel_keys(
            d.without_duplicates().city_objects,
        ),
        d.without_duplicates().city_objects.len() == d.city_objects.len(),
        toplevel_keys(d.without_duplicates().city_objects) == toplevel_keys(d.city_objects),
{
    let once = d.without_duplicates();
    lemma_deduped_differ(d.vertices);
    lemma_deduped_of_different(once.vertices);
    let plan = Plan::vertices();
    let t1 = (TablesView {
        vertices: id_pairs(deduped(d.vertices).ids),
        ..TablesView::empty()
    }).resolved(objects_need(d.city_objects, plan), 0);
    let t2 = (TablesView {
        vertices: id_pairs(deduped(once.vertices).ids),
        ..TablesView::empty()
    }).resolved(objects_need(once.city_objects, plan), 0);
    lemma_transfer_keeps_toplevel(d.city_objects, plan, t1);
    lemma_transfer_keeps_toplevel(once.city_objects, plan, t2);
}

/// Whether `x` is one of the items of `source` at the places `ids`.
pub open spec fn referred_to<T>(source: Seq<T>, ids: Seq<usize>, x: T) -> bool {
    exists|k: int| 0 <= k < ids.len() && source[#[trigger] ids[k] as int] == x
}

/// What a slice picks through a table that started empty is what the
/// resolved ids refer to: nothing more and nothing less.
pub proof fn lemma_picked_exact<T>(source: Seq<T>, ids: Seq<usize>, x: T)
    ensures
        picked(source, resolve_all(Seq::empty(), ids, 0)).contains(x) <==> referred_to(
            source,
            ids,
            x,
        ),
{
    let t = resolve_all(Seq::empty(), ids, 0);
    let sliced = picked(source, t);
    if sliced.contains(x) {
        let p = choose|p: int| 0 <= p < sliced.len() && sliced[p] == x;
        assert(has_old(t, t[p].0));
        lemma_resolve_all_exact(Seq::empty(), ids, 0, t[p].0);
        let k = choose|k: int| 0 <= k < ids.len() && ids[k] == t[p].0;
        assert(source[ids[k] as int] == x);
    }
    if referred_to(source, ids, x) {
        let k = choose|k: int| 0 <= k < ids.len() && source[#[trigger] ids[k] as int] == x;
        lemma_resolve_all_exact(Seq::empty(), ids, 0, ids[k]);
        assert(ids.contains(ids[k]));
        let p = position_of(t, ids[k]);
        assert(sliced[p] == x);
    }
}

/// A slice through a table that started empty holds one item for each
/// different id that was resolved.
pub proof fn lemma_picked_count<T>(source: Seq<T>, ids: Seq<usize>)
    ensures
        picked(source, resolve_all(Seq::empty(), ids, 0)).len() == ids.to_set().len(),
{
    let t = resolve_all(Seq::empty(), ids, 0);
    lemma_resolve_all(Seq::empty(), ids, 0);
    let keys = Seq::new(t.len(), |p: int| t[p].0);
    assert forall|p: int, q: int| 0 <= p < keys.len() && 0 <= q < keys.len() && p != q implies keys[p]
        != keys[q] by {
        if p < q {
            assert(t[p].0 != t[q].0);
        } else {
            assert(t[q].0 != t[p].0);
        }
    }
    assert forall|x: usize| keys.to_set().contains(x) <==> ids.to_set().contains(x) by {
        lemma_resolve_all_exact(Seq::empty(), ids, 0, x);
        if keys.contains(x) {
            let p = choose|p: int| 0 <= p < keys.len() && keys[p] == x;
            assert(t[p].0 == x);
        }
        if has_old(t, x) {
            let p = position_of(t, x);
            assert(keys[p] == x);
        }
    }
    assert(keys.to_set() =~= ids.to_set());
    keys.unique_seq_to_set();
}

/// The materials of a feature that is cut out of a document are those
/// materials of the document that the objects of the feature refer to:
/// none more and none less, and one for each different id that they refer
/// to. The same holds of its textures.
pub proof fn law_slice_conserves(d: CityJSONView, i: int)
    requires
        d.has_feature(i),
        d.appearance is Some,
    ensures
        d.feature(i).appearance is Some,
        d.appearance->0.materials is Some ==> d.feature(i).appearance->0.materials is Some
            && d.feature(i).appearance->0.materials->0.len() == objects_need(
            d.family(i),
            Plan::split(),
        ).materials.to_set().len() && forall|x: MaterialObject|
            d.feature(i).appearance->0.materials->0.contains(x) <==> referred_to(
                d.appearance->0.materials->0,
                objects_need(d.family(i), Plan::split()).materials,
                x,
            ),
        d.appearance->0.textures is Some ==> d.feature(i).appearance->0.textures is Some
            && d.feature(i).appearance->0.textures->0.len() == objects_need(
            d.family(i),
            Plan::split(),
        ).textures.to_set().len() && forall|x: TextureObject|
            d.feature(i).appearance->0.textures->0.contains(x) <==> referred_to(
                d.appearance->0.textures->0,
                objects_need(d.family(i), Plan::split()).textures,
                x,
            ),
{
    let need = objects_need(d.family(i), Plan::split());
    lemma_picked_count(d.appearance->0.materials->0, need.materials);
    lemma_picked_count(d.appearance->0.textures->0, need.textures);
    if d.appearance->0.materials is Some {
        assert forall|x: MaterialObject|
            d.feature(i).appearance->0.materials->0.contains(x) <==> referred_to(
                d.appearance->0.materials->0,
                need.materials,
                x,
            ) by {
            lemma_picked_exact(d.appearance->0.materials->0, need.materials, x);
        }
    }
    if d.appearance->0.textures is Some {
        assert forall|x: TextureObject|
            d.feature(i).appearance->0.textures->0.contains(x) <==> referred_to(
                d.appearance->0.textures->0,
                need.textures,
                x,
            ) by {
            lemma_picked_exact(d.appearance->0.textures->0, need.textures, x);
        }
    }
}

} // verus!
