//! What holds of cutting a document into features and joining the features
//! again: every object finds its vertices, its materials, its textures and
//! its texture vertices where it looks for them.

use crate::appearance::{
    material_names, or_empty, picked, texture_images, AppearanceView, MaterialObject,
    TextureObject, Validate,
};
use crate::cityjson::{CityJSONFeatureView, CityJSONView};
use crate::cityobject::{
    lemma_object_covers, lemma_object_ids, lemma_objects_need_below, object_need_fn,
    objects_need, objects_transferred, CityObjectView, Objects,
};
use crate::laws::{law_split_indices_valid, lemma_valid_fits};
use crate::merge::{
    absorb_materials, absorb_textures, collected, deduped, first_unmergeable, id_pairs, key_of,
    lemma_absorb_materials_keeps, lemma_absorb_textures_keeps, lemma_deduped, lemma_id_pairs,
    materials_valid, record_run, textures_valid,
};
use crate::namemap::{
    find_in, keys_of, lemma_find_present, lemma_find_put_all, lemma_gathered_uniform,
    lemma_position, position, present, put_all, uniform,
};
use crate::nested::{
    lemma_below_limit, lemma_moved_shape, lemma_renumbered_at, lemma_shape_chain, lemma_shape_same, lemma_shifted_at,
};
use crate::remap::{
    covers, dense, extends, has_old, keys_unique, lemma_resolve_all, lemma_resolve_all_count,
    lemma_unique_count, new_of, new_of_fn, position_of, Pairs,
};
use crate::scalar::Scalar;
use crate::tables::{lemma_all_need_covers, lemma_resolved, Motion, Plan, TablesView};
use vstd::prelude::*;

verus! {

/// Whether the object has a geometry `g` whose boundary has a list `k` with
/// a place `p`.
pub open spec fn has_place(o: CityObjectView, g: int, k: int, p: int) -> bool {
    &&& o.geometry is Some
    &&& 0 <= g < o.geometry->0.len()
    &&& 0 <= k < o.geometry->0[g].boundaries.lists().len()
    &&& 0 <= p < o.geometry->0[g].boundaries.lists()[k].len()
}

/// The vertex index at the place `p` of the list `k` of the boundary of the
/// geometry `g` of the object.
pub open spec fn index_in(o: CityObjectView, g: int, k: int, p: int) -> int {
    o.geometry->0[g].boundaries.lists()[k][p] as int
}

/// Whether `o2` with the vertices `vs2` shows what `o1` shows with the
/// vertices `vs1`: wherever an index of `o1` is the place of a vertex, the
/// index of `o2` at the same place is the place of the same vertex.
pub open spec fn mirrors(
    o1: CityObjectView,
    vs1: Seq<Seq<i64>>,
    o2: CityObjectView,
    vs2: Seq<Seq<i64>>,
) -> bool {
    forall|g: int, k: int, p: int|
        #[trigger] has_place(o1, g, k, p) && index_in(o1, g, k, p) < vs1.len() ==> has_place(
            o2,
            g,
            k,
            p,
        ) && index_in(o2, g, k, p) < vs2.len() && vs2[index_in(o2, g, k, p)] == vs1[index_in(
            o1,
            g,
            k,
            p,
        )]
}

/// As [`mirrors`], but for the coordinates of the vertices, by which a
/// vertex is told from another.
pub open spec fn mirrors_coordinates(
    o1: CityObjectView,
    vs1: Seq<Seq<i64>>,
    o2: CityObjectView,
    vs2: Seq<Seq<i64>>,
) -> bool {
    forall|g: int, k: int, p: int|
        #[trigger] has_place(o1, g, k, p) && index_in(o1, g, k, p) < vs1.len() ==> has_place(
            o2,
            g,
            k,
            p,
        ) && index_in(o2, g, k, p) < vs2.len() && key_of(vs2[index_in(o2, g, k, p)]) == key_of(
            vs1[index_in(o1, g, k, p)],
        )
}

/// Whether the references `ids2` into `xs2` show what the references `ids1`
/// show into `xs1`: there are as many, and wherever one of `ids1` is the
/// place of an item, the one of `ids2` at the same place is the place of an
/// item with the same `key`.
pub open spec fn shows<X, K>(
    ids1: Seq<usize>,
    xs1: Seq<X>,
    ids2: Seq<usize>,
    xs2: Seq<X>,
    key: spec_fn(X) -> K,
) -> bool {
    &&& ids2.len() == ids1.len()
    &&& forall|x: int|
        0 <= x < ids1.len() && (#[trigger] ids1[x]) < xs1.len() ==> ids2[x] < xs2.len() && key(
            xs2[ids2[x] as int],
        ) == key(xs1[ids1[x] as int])
}

/// Whether `ys` starts with `xs`.
pub open spec fn starts_with<X>(ys: Seq<X>, xs: Seq<X>) -> bool {
    xs.len() <= ys.len() && forall|i: int| 0 <= i < xs.len() ==> #[trigger] ys[i] == xs[i]
}

/// What shows what shows a thing shows the thing.
pub proof fn lemma_shows_chain<X, K>(
    ids1: Seq<usize>,
    xs1: Seq<X>,
    ids2: Seq<usize>,
    xs2: Seq<X>,
    ids3: Seq<usize>,
    xs3: Seq<X>,
    key: spec_fn(X) -> K,
)
    requires
        shows(ids1, xs1, ids2, xs2, key),
        shows(ids2, xs2, ids3, xs3, key),
    ensures
        shows(ids1, xs1, ids3, xs3, key),
{
    assert forall|x: int| 0 <= x < ids1.len() && (#[trigger] ids1[x]) < xs1.len() implies ids3[x]
        < xs3.len() && key(xs3[ids3[x] as int]) == key(xs1[ids1[x] as int]) by {
        assert(ids2[x] < xs2.len());
    }
}

/// More items at the end change nothing of what references show.
pub proof fn lemma_shows_more<X, K>(
    ids1: Seq<usize>,
    xs1: Seq<X>,
    ids2: Seq<usize>,
    xs2: Seq<X>,
    xs3: Seq<X>,
    key: spec_fn(X) -> K,
)
    requires
        shows(ids1, xs1, ids2, xs2, key),
        starts_with(xs3, xs2),
    ensures
        shows(ids1, xs1, ids2, xs3, key),
{
    assert forall|x: int| 0 <= x < ids1.len() && (#[trigger] ids1[x]) < xs1.len() implies ids2[x]
        < xs3.len() && key(xs3[ids2[x] as int]) == key(xs1[ids1[x] as int]) by {
        assert(xs3[ids2[x] as int] == xs2[ids2[x] as int]);
    }
}

/// References that are renumbered through a table without gaps show, in
/// what the table picks, what they showed before.
pub proof fn lemma_shows_split<X, K>(ids: Seq<usize>, xs: Seq<X>, t: Pairs, key: spec_fn(X) -> K)
    requires
        covers(t, ids),
        dense(t),
    ensures
        shows(ids, xs, ids.map_values(new_of_fn(t)), picked(xs, t), key),
{
    let ids2 = ids.map_values(new_of_fn(t));
    assert forall|x: int| 0 <= x < ids.len() && (#[trigger] ids[x]) < xs.len() implies ids2[x]
        < picked(xs, t).len() && key(picked(xs, t)[ids2[x] as int]) == key(xs[ids[x] as int]) by {
        assert(has_old(t, ids[x]));
        let q = position_of(t, ids[x]);
        assert(t[q].1 == q);
    }
}

/// Whether the table sends every place of `xs` to a place of `ys` where an
/// item with the same key stands.
pub open spec fn lands<X, K>(t: Pairs, xs: Seq<X>, ys: Seq<X>, key: spec_fn(X) -> K) -> bool {
    forall|r: usize|
        r < xs.len() ==> #[trigger] has_old(t, r) && new_of(t, r) < ys.len() && key(
            ys[new_of(t, r) as int],
        ) == key(xs[r as int])
}

/// References that are renumbered through a table that has grown from one
/// that lands show, where the table lands, what they showed before.
pub proof fn lemma_shows_merge<X, K>(
    ids: Seq<usize>,
    xs: Seq<X>,
    t1: Pairs,
    t2: Pairs,
    ys: Seq<X>,
    key: spec_fn(X) -> K,
)
    requires
        lands(t1, xs, ys, key),
        extends(t1, t2),
    ensures
        shows(ids, xs, ids.map_values(new_of_fn(t2)), ys, key),
{
    let ids2 = ids.map_values(new_of_fn(t2));
    assert forall|x: int| 0 <= x < ids.len() && (#[trigger] ids[x]) < xs.len() implies ids2[x]
        < ys.len() && key(ys[ids2[x] as int]) == key(xs[ids[x] as int]) by {
        assert(has_old(t1, ids[x]));
    }
}

/// The name of a material, as a value.
pub open spec fn name_fn() -> spec_fn(MaterialObject) -> Seq<char> {
    |m: MaterialObject| m.name@
}

/// The image of a texture, as a value.
pub open spec fn image_fn() -> spec_fn(TextureObject) -> Seq<char> {
    |t: TextureObject| t.image@
}

/// A texture vertex itself, as a value.
pub open spec fn pair_fn() -> spec_fn([Scalar; 2]) -> [Scalar; 2] {
    |v: [Scalar; 2]| v
}

/// The lists that the references of the objects of a document go into.
pub struct Lists {
    pub vertices: Seq<Seq<i64>>,
    pub materials: Seq<MaterialObject>,
    pub textures: Seq<TextureObject>,
    pub texture_vertices: Seq<[Scalar; 2]>,
}

/// The lists of these vertices and this appearance.
pub open spec fn lists_of(vertices: Seq<Seq<i64>>, a: Option<AppearanceView>) -> Lists {
    Lists {
        vertices,
        materials: or_empty(a).material_list(),
        textures: or_empty(a).texture_list(),
        texture_vertices: or_empty(a).vertex_list(),
    }
}

impl CityJSONView {
    /// The lists that the references of the objects go into.
    pub open spec fn lists(self) -> Lists {
        lists_of(self.vertices, self.appearance)
    }
}

impl CityJSONFeatureView {
    /// The lists that the references of the objects go into.
    pub open spec fn lists(self) -> Lists {
        lists_of(self.vertices, self.appearance)
    }
}

/// Whether `o2` is `o1` but for what its geometries refer to: the same
/// object otherwise, with as many geometries, each the same but for its
/// boundary, its materials and its textures, and with a boundary that nests
/// as that of `o1` does.
pub open spec fn alike(o1: CityObjectView, o2: CityObjectView) -> bool {
    &&& (CityObjectView { geometry: o1.geometry, ..o2 }) == o1
    &&& o1.geometry is Some <==> o2.geometry is Some
    &&& o1.geometry is Some ==> o1.geometry->0.len() == o2.geometry->0.len() && forall|g: int|
        0 <= g < o1.geometry->0.len() ==> (crate::geometry::GeometryView {
            boundaries: o1.geometry->0[g].boundaries,
            material: o1.geometry->0[g].material,
            texture: o1.geometry->0[g].texture,
            ..#[trigger] o2.geometry->0[g]
        }) == o1.geometry->0[g] && o1.geometry->0[g].boundaries.shaped_as(
            o2.geometry->0[g].boundaries,
        )
}

/// Whether `o2` with the lists `l2` shows what `o1` shows with the lists
/// `l1`: it is the same object but for its references, and wherever a
/// reference of `o1` is the place of an item of its list, the reference of
/// `o2` at the same place is the place of the same vertex, of a material of
/// the same name, of a texture of the same image, of the same texture
/// vertex.
pub open spec fn reflects(o1: CityObjectView, l1: Lists, o2: CityObjectView, l2: Lists) -> bool {
    let i1 = o1.needs(Plan::split());
    let i2 = o2.needs(Plan::split());
    &&& alike(o1, o2)
    &&& mirrors(o1, l1.vertices, o2, l2.vertices)
    &&& shows(i1.materials, l1.materials, i2.materials, l2.materials, name_fn())
    &&& shows(i1.textures, l1.textures, i2.textures, l2.textures, image_fn())
    &&& shows(
        i1.texture_vertices,
        l1.texture_vertices,
        i2.texture_vertices,
        l2.texture_vertices,
        pair_fn(),
    )
}

/// Whether each list of `l2` starts with the list of `l1`.
pub open spec fn grown(l1: Lists, l2: Lists) -> bool {
    &&& starts_with(l2.vertices, l1.vertices)
    &&& starts_with(l2.materials, l1.materials)
    &&& starts_with(l2.textures, l1.textures)
    &&& starts_with(l2.texture_vertices, l1.texture_vertices)
}

/// A transferred object is the object but for its references.
pub proof fn lemma_transferred_alike(o: CityObjectView, plan: Plan, t: TablesView)
    ensures
        alike(o, o.transferred(plan, t)),
{
    let o2 = o.transferred(plan, t);
    if o.geometry is Some {
        assert forall|g: int| 0 <= g < o.geometry->0.len() implies o.geometry->0[g].boundaries.shaped_as(
            (#[trigger] o2.geometry->0[g]).boundaries,
        ) by {
            let b = o.geometry->0[g].boundaries;
            lemma_shape_same(b);
            match plan.boundaries {
                Motion::Keep => {},
                Motion::Shift(k) => {
                    lemma_moved_shape(b, t.vertices, k as int);
                },
                Motion::Renumber => {
                    lemma_moved_shape(b, t.vertices, 0);
                },
            }
        }
    }
}

/// What is like what is like a thing is like the thing.
pub proof fn lemma_alike_chain(o1: CityObjectView, o2: CityObjectView, o3: CityObjectView)
    requires
        alike(o1, o2),
        alike(o2, o3),
    ensures
        alike(o1, o3),
{
    if o1.geometry is Some {
        assert forall|g: int| 0 <= g < o1.geometry->0.len() implies (crate::geometry::GeometryView {
            boundaries: o1.geometry->0[g].boundaries,
            material: o1.geometry->0[g].material,
            texture: o1.geometry->0[g].texture,
            ..#[trigger] o3.geometry->0[g]
        }) == o1.geometry->0[g] by {
            let g2 = o2.geometry->0[g];
            assert((crate::geometry::GeometryView {
                boundaries: o2.geometry->0[g].boundaries,
                material: o2.geometry->0[g].material,
                texture: o2.geometry->0[g].texture,
                ..o3.geometry->0[g]
            }) == g2);
        }
        assert forall|g: int| 0 <= g < o1.geometry->0.len() implies o1.geometry->0[g].boundaries.shaped_as(
            (#[trigger] o3.geometry->0[g]).boundaries,
        ) by {
            assert(o1.geometry->0[g].boundaries.shaped_as(o2.geometry->0[g].boundaries));
            assert(o2.geometry->0[g].boundaries.shaped_as(o3.geometry->0[g].boundaries));
            lemma_shape_chain(
                o1.geometry->0[g].boundaries,
                o2.geometry->0[g].boundaries,
                o3.geometry->0[g].boundaries,
            );
        }
    }
}

/// What shows what shows a thing shows the thing.
pub proof fn lemma_mirrors_chain(
    o1: CityObjectView,
    vs1: Seq<Seq<i64>>,
    o2: CityObjectView,
    vs2: Seq<Seq<i64>>,
    o3: CityObjectView,
    vs3: Seq<Seq<i64>>,
)
    requires
        mirrors(o1, vs1, o2, vs2),
        mirrors(o2, vs2, o3, vs3),
    ensures
        mirrors(o1, vs1, o3, vs3),
{
    assert forall|g: int, k: int, p: int|
        #[trigger] has_place(o1, g, k, p) && index_in(o1, g, k, p) < vs1.len() implies has_place(
        o3,
        g,
        k,
        p,
    ) && index_in(o3, g, k, p) < vs3.len() && vs3[index_in(o3, g, k, p)] == vs1[index_in(
        o1,
        g,
        k,
        p,
    )] by {
        assert(has_place(o2, g, k, p));
    }
}

/// More vertices at the end change nothing of what an object shows.
pub proof fn lemma_mirrors_more(
    o1: CityObjectView,
    vs1: Seq<Seq<i64>>,
    o2: CityObjectView,
    vs2: Seq<Seq<i64>>,
    vs3: Seq<Seq<i64>>,
)
    requires
        mirrors(o1, vs1, o2, vs2),
        starts_with(vs3, vs2),
    ensures
        mirrors(o1, vs1, o2, vs3),
{
    assert forall|g: int, k: int, p: int|
        #[trigger] has_place(o1, g, k, p) && index_in(o1, g, k, p) < vs1.len() implies has_place(
        o2,
        g,
        k,
        p,
    ) && index_in(o2, g, k, p) < vs3.len() && vs3[index_in(o2, g, k, p)] == vs1[index_in(
        o1,
        g,
        k,
        p,
    )] by {
        assert(has_place(o2, g, k, p));
        assert(vs3[index_in(o2, g, k, p)] == vs2[index_in(o2, g, k, p)]);
    }
}

/// What reflects what reflects a thing reflects the thing.
pub proof fn lemma_reflects_chain(
    o1: CityObjectView,
    l1: Lists,
    o2: CityObjectView,
    l2: Lists,
    o3: CityObjectView,
    l3: Lists,
)
    requires
        reflects(o1, l1, o2, l2),
        reflects(o2, l2, o3, l3),
    ensures
        reflects(o1, l1, o3, l3),
{
    let i1 = o1.needs(Plan::split());
    let i2 = o2.needs(Plan::split());
    let i3 = o3.needs(Plan::split());
    lemma_alike_chain(o1, o2, o3);
    lemma_mirrors_chain(o1, l1.vertices, o2, l2.vertices, o3, l3.vertices);
    lemma_shows_chain(
        i1.materials,
        l1.materials,
        i2.materials,
        l2.materials,
        i3.materials,
        l3.materials,
        name_fn(),
    );
    lemma_shows_chain(
        i1.textures,
        l1.textures,
        i2.textures,
        l2.textures,
        i3.textures,
        l3.textures,
        image_fn(),
    );
    lemma_shows_chain(
        i1.texture_vertices,
        l1.texture_vertices,
        i2.texture_vertices,
        l2.texture_vertices,
        i3.texture_vertices,
        l3.texture_vertices,
        pair_fn(),
    );
}

/// Lists that grow change nothing of what an object shows.
pub proof fn lemma_reflects_more(
    o1: CityObjectView,
    l1: Lists,
    o2: CityObjectView,
    l2: Lists,
    l3: Lists,
)
    requires
        reflects(o1, l1, o2, l2),
        grown(l2, l3),
    ensures
        reflects(o1, l1, o2, l3),
{
    let i1 = o1.needs(Plan::split());
    let i2 = o2.needs(Plan::split());
    lemma_mirrors_more(o1, l1.vertices, o2, l2.vertices, l3.vertices);
    lemma_shows_more(i1.materials, l1.materials, i2.materials, l2.materials, l3.materials, name_fn());
    lemma_shows_more(i1.textures, l1.textures, i2.textures, l2.textures, l3.textures, image_fn());
    lemma_shows_more(
        i1.texture_vertices,
        l1.texture_vertices,
        i2.texture_vertices,
        l2.texture_vertices,
        l3.texture_vertices,
        pair_fn(),
    );
}

/// An object that is cut out with a feature shows, with the vertices of the
/// feature, what it showed in the document.
pub proof fn lemma_split_mirrors(o: CityObjectView, vs: Seq<Seq<i64>>, t: TablesView)
    requires
        t.covers(o.needs(Plan::split())),
        dense(t.vertices),
        t.vertices.len() <= u32::MAX + 1,
    ensures
        mirrors(o, vs, o.transferred(Plan::split(), t), picked(vs, t.vertices)),
{
    let plan = Plan::split();
    let o2 = o.transferred(plan, t);
    lemma_object_covers(o, plan, t);
    assert forall|g: int, k: int, p: int|
        #[trigger] has_place(o, g, k, p) && index_in(o, g, k, p) < vs.len() implies has_place(
        o2,
        g,
        k,
        p,
    ) && index_in(o2, g, k, p) < picked(vs, t.vertices).len() && picked(vs, t.vertices)[index_in(
        o2,
        g,
        k,
        p,
    )] == vs[index_in(o, g, k, p)] by {
        let b = o.geometry->0[g].boundaries;
        lemma_renumbered_at(b, t.vertices, k, p);
        let leaf = b.lists()[k][p] as usize;
        let x = choose|x: int| 0 <= x < b.vertex_ids().len() && b.vertex_ids()[x] == leaf;
        assert(has_old(t.vertices, b.vertex_ids()[x]));
        let q = position_of(t.vertices, leaf);
        assert(t.vertices[q].1 == q);
        assert(o2.geometry->0[g].boundaries == b.renumbered(t.vertices));
    }
}

/// An object of a feature that is added to a document shows, with the
/// vertices of the document, what it showed in the feature.
pub proof fn lemma_merge_mirrors(
    o: CityObjectView,
    vs: Seq<Seq<i64>>,
    base: Seq<Seq<i64>>,
    t: TablesView,
)
    requires
        base.len() + vs.len() <= u32::MAX,
    ensures
        mirrors(o, vs, o.transferred(Plan::merge(base.len() as usize), t), base + vs),
{
    let shift = base.len() as usize;
    let plan = Plan::merge(shift);
    let o2 = o.transferred(plan, t);
    assert forall|g: int, k: int, p: int|
        #[trigger] has_place(o, g, k, p) && index_in(o, g, k, p) < vs.len() implies has_place(
        o2,
        g,
        k,
        p,
    ) && index_in(o2, g, k, p) < (base + vs).len() && (base + vs)[index_in(o2, g, k, p)]
        == vs[index_in(o, g, k, p)] by {
        let b = o.geometry->0[g].boundaries;
        lemma_shifted_at(b, shift as int, k, p);
        assert(o2.geometry->0[g].boundaries == b.shifted(shift as int));
    }
}

/// An object of a document from which the vertices that occur twice are
/// removed shows, with the vertices that are left, the coordinates that it
/// showed before.
pub proof fn lemma_dedup_mirrors(o: CityObjectView, vs: Seq<Seq<i64>>, t: TablesView)
    requires
        vs.len() <= u32::MAX,
        extends(id_pairs(deduped(vs).ids), t.vertices),
    ensures
        mirrors_coordinates(o, vs, o.transferred(Plan::vertices(), t), deduped(vs).vertices),
{
    let plan = Plan::vertices();
    let dd = deduped(vs);
    let o2 = o.transferred(plan, t);
    lemma_deduped(vs);
    assert forall|g: int, k: int, p: int|
        #[trigger] has_place(o, g, k, p) && index_in(o, g, k, p) < vs.len() implies has_place(
        o2,
        g,
        k,
        p,
    ) && index_in(o2, g, k, p) < dd.vertices.len() && key_of(dd.vertices[index_in(o2, g, k, p)])
        == key_of(vs[index_in(o, g, k, p)]) by {
        let b = o.geometry->0[g].boundaries;
        let leaf = b.lists()[k][p] as usize;
        lemma_id_pairs(dd.ids, leaf);
        lemma_renumbered_at(b, t.vertices, k, p);
        assert(has_old(id_pairs(dd.ids), leaf));
        assert(new_of(t.vertices, leaf) == dd.ids[leaf as int]);
        assert(o2.geometry->0[g].boundaries == b.renumbered(t.vertices));
    }
}

/// Whether the tables of a feature are without gaps and no longer than the
/// machine counts, and its vertex table no longer than an index tells apart.
pub open spec fn tables_fit(t: TablesView) -> bool {
    &&& t.vertices.len() <= u32::MAX + 1
    &&& t.materials.len() <= usize::MAX + 1
    &&& t.textures.len() <= usize::MAX + 1
    &&& t.texture_vertices.len() <= usize::MAX + 1
}

/// An object that is cut out with a feature shows, with the lists of the
/// feature, what it showed in the document.
pub proof fn lemma_split_reflects(d: CityJSONView, i: int, o: CityObjectView)
    requires
        d.feature_tables(i).covers(o.needs(Plan::split())),
        tables_fit(d.feature_tables(i)),
    ensures
        reflects(
            o,
            d.lists(),
            o.transferred(Plan::split(), d.feature_tables(i)),
            d.feature(i).lists(),
        ),
{
    let plan = Plan::split();
    let t = d.feature_tables(i);
    let ids = o.needs(plan);
    let need = objects_need(d.family(i), plan);
    lemma_resolve_all(Seq::empty(), need.vertices, 0);
    lemma_resolve_all(Seq::empty(), need.materials, 0);
    lemma_resolve_all(Seq::empty(), need.textures, 0);
    lemma_resolve_all(Seq::empty(), need.texture_vertices, 0);
    lemma_transferred_alike(o, plan, t);
    lemma_split_mirrors(o, d.vertices, t);
    lemma_object_ids(o, plan, t);
    let l1 = d.lists();
    let l2 = d.feature(i).lists();
    let o2 = o.transferred(plan, t);
    let ids2 = o2.needs(plan);
    assert(ids2.materials == ids.materials.map_values(new_of_fn(t.materials)));
    assert(ids2.textures == ids.textures.map_values(new_of_fn(t.textures)));
    assert(ids2.texture_vertices == ids.texture_vertices.map_values(
        new_of_fn(t.texture_vertices),
    ));
    if l1.materials.len() > 0 {
        lemma_shows_split(ids.materials, l1.materials, t.materials, name_fn());
    }
    if l1.textures.len() > 0 {
        lemma_shows_split(ids.textures, l1.textures, t.textures, image_fn());
    }
    if l1.texture_vertices.len() > 0 {
        lemma_shows_split(ids.texture_vertices, l1.texture_vertices, t.texture_vertices, pair_fn());
    }
}

/// What comes of adding materials to an appearance with an empty table: the
/// table sends the place of each material to the place of a material of its
/// name, and the materials that were there stay where they were.
pub proof fn lemma_absorb_materials_lands(a: Option<AppearanceView>, mats: Seq<MaterialObject>)
    requires
        or_empty(absorb_materials(a, Seq::empty(), mats).0).material_list().len() <= usize::MAX,
        mats.len() <= usize::MAX,
    ensures
        lands(
            absorb_materials(a, Seq::empty(), mats).1,
            mats,
            or_empty(absorb_materials(a, Seq::empty(), mats).0).material_list(),
            name_fn(),
        ),
        starts_with(
            or_empty(absorb_materials(a, Seq::empty(), mats).0).material_list(),
            or_empty(a).material_list(),
        ),
        keys_unique(absorb_materials(a, Seq::empty(), mats).1),
        absorb_materials(a, Seq::empty(), mats).1.len() == mats.len(),
        forall|i: int|
            0 <= i < mats.len() ==> (#[trigger] absorb_materials(a, Seq::empty(), mats).1[i]).0 == i,
    decreases mats.len(),
{
    if mats.len() > 0 {
        let front = mats.drop_last();
        let (a0, t0) = absorb_materials(a, Seq::empty(), front);
        let (a1, t1) = absorb_materials(a, Seq::empty(), mats);
        let list0 = or_empty(a0).material_list();
        let list1 = or_empty(a1).material_list();
        let n = (mats.len() - 1) as usize;
        let w = or_empty(a0).with_material(mats.last());
        lemma_position(material_names(list0), mats.last().name@);
        assert(list0.len() <= list1.len());
        lemma_absorb_materials_lands(a, front);
        assert(!has_old(t0, n)) by {
            if has_old(t0, n) {
                let q = position_of(t0, n);
                assert(t0[q].0 == q);
            }
        }
        assert(t1 == t0.push((n, w.0 as usize)));
        assert(list1[w.0].name@ == mats.last().name@) by {
            if position(material_names(list0), mats.last().name@) is Some {
                assert(material_names(list0)[w.0] == list0[w.0].name@);
            }
        }
        assert forall|r: usize| r < mats.len() implies #[trigger] has_old(t1, r) && new_of(t1, r)
            < list1.len() && name_fn()(list1[new_of(t1, r) as int]) == name_fn()(mats[r as int]) by {
            assert(t1[r as int].0 == r);
            crate::remap::lemma_position(t1, r as int);
            if r < n {
                assert(has_old(t0, r));
                crate::remap::lemma_position(t0, r as int);
                assert(t1[r as int] == t0[r as int]);
                assert(front[r as int] == mats[r as int]);
                assert(list1[new_of(t0, r) as int] == list0[new_of(t0, r) as int]);
            }
        }
    }
}

/// What comes of adding textures to an appearance with an empty table: the
/// table sends the place of each texture to the place of a texture of its
/// image, and the textures that were there stay where they were.
pub proof fn lemma_absorb_textures_lands(a: Option<AppearanceView>, texs: Seq<TextureObject>)
    requires
        or_empty(absorb_textures(a, Seq::empty(), texs).0).texture_list().len() <= usize::MAX,
        texs.len() <= usize::MAX,
    ensures
        lands(
            absorb_textures(a, Seq::empty(), texs).1,
            texs,
            or_empty(absorb_textures(a, Seq::empty(), texs).0).texture_list(),
            image_fn(),
        ),
        starts_with(
            or_empty(absorb_textures(a, Seq::empty(), texs).0).texture_list(),
            or_empty(a).texture_list(),
        ),
        keys_unique(absorb_textures(a, Seq::empty(), texs).1),
        absorb_textures(a, Seq::empty(), texs).1.len() == texs.len(),
        forall|i: int|
            0 <= i < texs.len() ==> (#[trigger] absorb_textures(a, Seq::empty(), texs).1[i]).0 == i,
    decreases texs.len(),
{
    if texs.len() > 0 {
        let front = texs.drop_last();
        let (a0, t0) = absorb_textures(a, Seq::empty(), front);
        let (a1, t1) = absorb_textures(a, Seq::empty(), texs);
        let list0 = or_empty(a0).texture_list();
        let list1 = or_empty(a1).texture_list();
        let n = (texs.len() - 1) as usize;
        let w = or_empty(a0).with_texture(texs.last());
        lemma_position(texture_images(list0), texs.last().image@);
        assert(list0.len() <= list1.len());
        lemma_absorb_textures_lands(a, front);
        assert(!has_old(t0, n)) by {
            if has_old(t0, n) {
                let q = position_of(t0, n);
                assert(t0[q].0 == q);
            }
        }
        assert(t1 == t0.push((n, w.0 as usize)));
        assert(list1[w.0].image@ == texs.last().image@) by {
            if position(texture_images(list0), texs.last().image@) is Some {
                assert(texture_images(list0)[w.0] == list0[w.0].image@);
            }
        }
        assert forall|r: usize| r < texs.len() implies #[trigger] has_old(t1, r) && new_of(t1, r)
            < list1.len() && image_fn()(list1[new_of(t1, r) as int]) == image_fn()(texs[r as int]) by {
            assert(t1[r as int].0 == r);
            crate::remap::lemma_position(t1, r as int);
            if r < n {
                assert(has_old(t0, r));
                crate::remap::lemma_position(t0, r as int);
                assert(t1[r as int] == t0[r as int]);
                assert(front[r as int] == texs[r as int]);
                assert(list1[new_of(t0, r) as int] == list0[new_of(t0, r) as int]);
            }
        }
    }
}

/// The table in which a run of places is recorded from empty sends each
/// place of `xs` to its place in `base + xs`.
pub proof fn lemma_record_run_lands(base: Seq<[Scalar; 2]>, xs: Seq<[Scalar; 2]>, n: nat)
    requires
        n <= xs.len(),
        base.len() + xs.len() <= usize::MAX,
    ensures
        lands(record_run(Seq::empty(), base.len() as int, n), xs.take(n as int), base + xs, pair_fn()),
        keys_unique(record_run(Seq::empty(), base.len() as int, n)),
        record_run(Seq::empty(), base.len() as int, n).len() == n,
        forall|i: int|
            0 <= i < n ==> #[trigger] record_run(Seq::empty(), base.len() as int, n)[i] == (
                i as usize,
                (base.len() + i) as usize,
            ),
    decreases n,
{
    let t1 = record_run(Seq::empty(), base.len() as int, n);
    if n > 0 {
        let t0 = record_run(Seq::empty(), base.len() as int, (n - 1) as nat);
        lemma_record_run_lands(base, xs, (n - 1) as nat);
        let k = (n - 1) as usize;
        assert(!has_old(t0, k)) by {
            if has_old(t0, k) {
                let q = position_of(t0, k);
                assert(t0[q] == (q as usize, (base.len() + q) as usize));
            }
        }
        assert(t1 == t0.push((k, (base.len() + n - 1) as usize)));
        assert forall|i: int| 0 <= i < n implies #[trigger] t1[i] == (
            i as usize,
            (base.len() + i) as usize,
        ) by {
            if i < n - 1 {
                assert(t1[i] == t0[i]);
            }
        }
        assert forall|p: int, q: int| 0 <= p < q < t1.len() implies (#[trigger] t1[p]).0 != (
        #[trigger] t1[q]).0 by {
            assert(t1[p] == (p as usize, (base.len() + p) as usize));
            assert(t1[q] == (q as usize, (base.len() + q) as usize));
        }
        assert forall|r: usize| r < xs.take(n as int).len() implies #[trigger] has_old(t1, r)
            && new_of(t1, r) < (base + xs).len() && pair_fn()((base + xs)[new_of(t1, r) as int])
            == pair_fn()(xs.take(n as int)[r as int]) by {
            assert(t1[r as int] == (r, (base.len() + r) as usize));
            crate::remap::lemma_position(t1, r as int);
            assert(new_of(t1, r) == base.len() + r);
            assert((base + xs)[base.len() + r] == xs[r as int]);
            assert(xs.take(n as int)[r as int] == xs[r as int]);
        }
    } else {
        assert(t1 =~= Seq::<(usize, usize)>::empty());
        assert(xs.take(0).len() == 0);
    }
}

/// Whether the lists of a document to which the feature `f` is added are no
/// longer than the machine counts, and its vertices no more than an index
/// tells apart.
pub open spec fn merge_fits(c: CityJSONView, f: CityJSONFeatureView) -> bool {
    let l = c.merged(f, TablesView::empty()).document.lists();
    &&& l.vertices.len() <= u32::MAX
    &&& l.materials.len() <= usize::MAX
    &&& l.textures.len() <= usize::MAX
    &&& l.texture_vertices.len() <= usize::MAX
    &&& f.lists().materials.len() <= usize::MAX
    &&& f.lists().textures.len() <= usize::MAX
}

/// An object of a feature that is added to a document shows, with the lists
/// of the document, what it showed in the feature; and the lists of the
/// document have grown.
pub proof fn lemma_merge_reflects(c: CityJSONView, f: CityJSONFeatureView, o: CityObjectView)
    requires
        merge_fits(c, f),
    ensures
        reflects(
            o,
            f.lists(),
            o.transferred(
                Plan::merge(c.vertices.len() as usize),
                c.merged(f, TablesView::empty()).tables,
            ),
            c.merged(f, TablesView::empty()).document.lists(),
        ),
        grown(c.lists(), c.merged(f, TablesView::empty()).document.lists()),
{
    let empty = TablesView::empty();
    let m = c.merged(f, empty);
    let plan = Plan::merge(c.vertices.len() as usize);
    let (a, t1) = c.absorbed(f, empty);
    let t2 = m.tables;
    let (a1, tm) = absorb_materials(c.appearance, Seq::empty(), f.materials());
    let (a2, tt) = absorb_textures(a1, Seq::empty(), f.textures());
    let l0 = c.lists();
    let lf = f.lists();
    let l2 = m.document.lists();
    let o2 = o.transferred(plan, t2);
    let ids = o.needs(Plan::split());
    let need = objects_need(f.city_objects, plan);
    lemma_absorb_materials_keeps(c.appearance, Seq::empty(), f.materials());
    lemma_absorb_textures_keeps(a1, Seq::empty(), f.textures());
    assert(l2.materials == or_empty(a1).material_list());
    assert(l2.textures == or_empty(a2).texture_list());
    assert(l2.texture_vertices =~= l0.texture_vertices + lf.texture_vertices);
    assert(l2.vertices == l0.vertices + lf.vertices);
    lemma_absorb_materials_lands(c.appearance, f.materials());
    lemma_absorb_textures_lands(a1, f.textures());
    lemma_record_run_lands(l0.texture_vertices, lf.texture_vertices, lf.texture_vertices.len());
    assert(lf.texture_vertices.take(lf.texture_vertices.len() as int) =~= lf.texture_vertices);
    lemma_resolve_all(t1.materials, need.materials, 0);
    lemma_resolve_all(t1.textures, need.textures, 0);
    if lf.texture_vertices.len() > 0 {
        lemma_resolve_all(t1.texture_vertices, need.texture_vertices, 0);
        lemma_shows_merge(
            ids.texture_vertices,
            lf.texture_vertices,
            t1.texture_vertices,
            t2.texture_vertices,
            l2.texture_vertices,
            pair_fn(),
        );
    }
    lemma_transferred_alike(o, plan, t2);
    lemma_merge_mirrors(o, f.vertices, c.vertices, t2);
    lemma_object_ids(o, plan, t2);
    lemma_shows_merge(ids.materials, lf.materials, t1.materials, t2.materials, l2.materials, name_fn());
    lemma_shows_merge(ids.textures, lf.textures, t1.textures, t2.textures, l2.textures, image_fn());
}

/// Transferred objects stand under the names that they stood under, and
/// where every object under a name was the same, so is every transferred
/// one.
pub proof fn lemma_transferred_uniform(
    os: Objects,
    plan: Plan,
    t: TablesView,
    key: Seq<char>,
    o: CityObjectView,
)
    requires
        uniform(os, key, o),
    ensures
        uniform(objects_transferred(os, plan, t), key, o.transferred(plan, t)),
        present(objects_transferred(os, plan, t), key) == present(os, key),
{
    let ts = objects_transferred(os, plan, t);
    assert forall|j: int| 0 <= j < ts.len() && (#[trigger] ts[j]).0 == key implies ts[j].1
        == o.transferred(plan, t) by {
        assert(os[j].0 == key);
    }
    if present(os, key) {
        let j = choose|j: int| 0 <= j < os.len() && (#[trigger] os[j]).0 == key;
        assert(ts[j].0 == key);
    }
    if present(ts, key) {
        let j = choose|j: int| 0 <= j < ts.len() && (#[trigger] ts[j]).0 == key;
        assert(os[j].0 == key);
    }
}

/// Looking up a name among transferred objects finds the transferred
/// object of that name.
pub proof fn lemma_find_transferred(os: Objects, plan: Plan, t: TablesView, key: Seq<char>)
    ensures
        find_in(objects_transferred(os, plan, t), key) == match find_in(os, key) {
            Some(o) => Some(o.transferred(plan, t)),
            None => None,
        },
{
    let ts = objects_transferred(os, plan, t);
    assert(keys_of(ts) =~= keys_of(os));
    lemma_position(keys_of(os), key);
}

/// What comes of cutting a document into its features and joining them
/// again: the features are added to the header, and the vertices that occur
/// twice are removed.
pub open spec fn round_trip(d: CityJSONView) -> CityJSONView {
    collected(d.header(), d.features()).without_duplicates()
}

/// Adding one feature more is adding it to what the others gave.
pub proof fn lemma_collected_step(h: CityJSONView, fs: Seq<CityJSONFeatureView>, m: int)
    requires
        0 <= m < fs.len(),
    ensures
        collected(h, fs.take(m + 1)) == collected(h, fs.take(m)).merged(
            fs[m],
            TablesView::empty(),
        ).document,
{
    assert(fs.take(m + 1).drop_last() =~= fs.take(m));
    assert(fs.take(m + 1).last() == fs[m]);
}

/// Whether each step of cutting a document and joining it again stays
/// within the machine's integers: each name in the order of its features
/// is that of an object, and neither the tables of a feature nor the lists
/// of the document that is joined outgrow them.
pub open spec fn fits_each_step(d: CityJSONView) -> bool {
    &&& forall|x: int| 0 <= x < d.sorted_ids.len() ==> #[trigger] d.has_feature(x)
    &&& forall|x: int| 0 <= x < d.sorted_ids.len() ==> tables_fit(#[trigger] d.feature_tables(x))
    &&& forall|x: int|
        0 <= x < d.sorted_ids.len() ==> merge_fits(
            #[trigger] collected(d.header(), d.features().take(x)),
            d.feature(x),
        )
}

/// Whether no list of `l1` is longer than the list of `l2`.
pub open spec fn no_longer(l1: Lists, l2: Lists) -> bool {
    &&& l1.vertices.len() <= l2.vertices.len()
    &&& l1.materials.len() <= l2.materials.len()
    &&& l1.textures.len() <= l2.textures.len()
    &&& l1.texture_vertices.len() <= l2.texture_vertices.len()
}

/// Adding materials to an appearance leaves it with as many materials at
/// least.
pub proof fn lemma_absorb_materials_len(
    a: Option<AppearanceView>,
    t: Pairs,
    mats: Seq<MaterialObject>,
)
    ensures
        or_empty(a).material_list().len() <= or_empty(
            absorb_materials(a, t, mats).0,
        ).material_list().len(),
    decreases mats.len(),
{
    if mats.len() > 0 {
        lemma_absorb_materials_len(a, t, mats.drop_last());
    }
}

/// Adding textures to an appearance leaves it with as many textures at
/// least.
pub proof fn lemma_absorb_textures_len(
    a: Option<AppearanceView>,
    t: Pairs,
    texs: Seq<TextureObject>,
)
    ensures
        or_empty(a).texture_list().len() <= or_empty(
            absorb_textures(a, t, texs).0,
        ).texture_list().len(),
    decreases texs.len(),
{
    if texs.len() > 0 {
        lemma_absorb_textures_len(a, t, texs.drop_last());
    }
}

/// Adding a feature to a document shortens none of its lists, and adds the
/// vertices and the texture vertices of the feature to those that it has.
pub proof fn lemma_merged_no_shorter(c: CityJSONView, f: CityJSONFeatureView)
    ensures
        no_longer(c.lists(), c.merged(f, TablesView::empty()).document.lists()),
        c.merged(f, TablesView::empty()).document.lists().vertices.len() == c.vertices.len()
            + f.vertices.len(),
        c.merged(f, TablesView::empty()).document.lists().texture_vertices.len() == c.lists().texture_vertices.len()
            + f.uv_count(),
{
    let m = c.merged(f, TablesView::empty());
    let (a1, tm) = absorb_materials(c.appearance, Seq::empty(), f.materials());
    let (a2, tt) = absorb_textures(a1, Seq::empty(), f.textures());
    let l0 = c.lists();
    let lf = f.lists();
    let l2 = m.document.lists();
    lemma_absorb_materials_keeps(c.appearance, Seq::empty(), f.materials());
    lemma_absorb_textures_keeps(a1, Seq::empty(), f.textures());
    lemma_absorb_materials_len(c.appearance, Seq::empty(), f.materials());
    lemma_absorb_textures_len(a1, Seq::empty(), f.textures());
    assert(l2.materials == or_empty(a1).material_list());
    assert(l2.textures == or_empty(a2).texture_list());
    assert(l2.texture_vertices =~= l0.texture_vertices + lf.texture_vertices);
    assert(l2.vertices == l0.vertices + lf.vertices);
}

/// The lists of a document to which features are added are no shorter when
/// all have been added than when some have been.
pub proof fn lemma_collected_no_shorter(h: CityJSONView, fs: Seq<CityJSONFeatureView>, m: int)
    requires
        0 <= m <= fs.len(),
    ensures
        no_longer(collected(h, fs.take(m)).lists(), collected(h, fs).lists()),
    decreases fs.len() - m,
{
    if m < fs.len() {
        lemma_collected_step(h, fs, m);
        lemma_merged_no_shorter(collected(h, fs.take(m)), fs[m]);
        lemma_collected_no_shorter(h, fs, m + 1);
    } else {
        assert(fs.take(m) =~= fs);
    }
}

/// The tables of a feature are never longer than the machine counts, nor
/// its vertex table longer than an index tells apart.
pub proof fn lemma_tables_fit(os: Objects)
    ensures
        tables_fit(TablesView::empty().resolved(objects_need(os, Plan::split()), 0)),
{
    let need = objects_need(os, Plan::split());
    assert forall|i: int| 0 <= i < os.len() implies (#[trigger] os[i]).1.below(u32::MAX + 1) by {
        match os[i].1.geometry {
            Some(gs) => {
                assert forall|g: int| 0 <= g < gs.len() implies (#[trigger] gs[g]).boundaries.below(
                    u32::MAX + 1,
                ) by {
                    lemma_below_limit(gs[g].boundaries);
                }
            },
            None => {},
        }
    }
    lemma_objects_need_below(os, Plan::split(), u32::MAX + 1);
    lemma_resolve_all_count(need.vertices, u32::MAX + 1);
    lemma_resolve_all_count(need.materials, usize::MAX + 1);
    lemma_resolve_all_count(need.textures, usize::MAX + 1);
    lemma_resolve_all_count(need.texture_vertices, usize::MAX + 1);
}

/// A feature that is cut out of a document whose appearance holds what the
/// feature refers to has no more materials and no more textures than the
/// document.
pub proof fn lemma_feature_lists_fit(d: CityJSONView, i: int)
    requires
        d.appearance_holds(i),
    ensures
        d.feature(i).lists().materials.len() <= d.lists().materials.len(),
        d.feature(i).lists().textures.len() <= d.lists().textures.len(),
{
    let need = objects_need(d.family(i), Plan::split());
    let t = d.feature_tables(i);
    lemma_resolve_all(Seq::empty(), need.materials, 0);
    lemma_resolve_all(Seq::empty(), need.textures, 0);
    match d.appearance {
        Some(a) => {
            if a.materials is Some {
                lemma_unique_count(t.materials, a.material_list().len() as int);
            }
            if a.textures is Some {
                lemma_unique_count(t.textures, a.texture_list().len() as int);
            }
        },
        None => {},
    }
}

/// Whether a document can be cut and joined again: each name in the order
/// of its features is that of an object; its appearance holds every
/// material, texture and texture vertex that a feature refers to; it has
/// no more materials and textures than the machine counts; and of the
/// document that is joined, the vertices are no more than an index tells
/// apart and the other lists no longer than the machine counts.
pub open spec fn can_round_trip(d: CityJSONView) -> bool {
    let joined = collected(d.header(), d.features()).lists();
    &&& forall|x: int| 0 <= x < d.sorted_ids.len() ==> #[trigger] d.has_feature(x)
    &&& forall|x: int| 0 <= x < d.sorted_ids.len() ==> #[trigger] d.appearance_holds(x)
    &&& d.lists().materials.len() <= usize::MAX
    &&& d.lists().textures.len() <= usize::MAX
    &&& joined.vertices.len() <= u32::MAX
    &&& joined.materials.len() <= usize::MAX
    &&& joined.textures.len() <= usize::MAX
    &&& joined.texture_vertices.len() <= usize::MAX
}

/// A document that can be cut and joined again stays within the machine's
/// integers at each step.
pub proof fn lemma_fits_each_step(d: CityJSONView)
    requires
        can_round_trip(d),
    ensures
        fits_each_step(d),
{
    let h = d.header();
    let fs = d.features();
    assert forall|x: int| 0 <= x < d.sorted_ids.len() implies tables_fit(
        #[trigger] d.feature_tables(x),
    ) by {
        lemma_tables_fit(d.family(x));
    }
    assert forall|x: int| 0 <= x < d.sorted_ids.len() implies merge_fits(
        #[trigger] collected(h, fs.take(x)),
        d.feature(x),
    ) by {
        lemma_collected_step(h, fs, x);
        assert(fs[x] == d.feature(x));
        lemma_collected_no_shorter(h, fs, x + 1);
        assert(d.appearance_holds(x));
        lemma_feature_lists_fit(d, x);
    }
}

/// After the first `m` features of a document have been joined, every
/// object of one of them reflects what it was in the document.
pub proof fn lemma_collected_reflects(d: CityJSONView, m: int, i: int, j: int)
    requires
        fits_each_step(d),
        0 <= i < m <= d.sorted_ids.len(),
        0 <= j < d.family_keys(i).len(),
        find_in(d.city_objects, d.family_keys(i)[j]) is Some,
    ensures
        find_in(
            collected(d.header(), d.features().take(m)).city_objects,
            d.family_keys(i)[j],
        ) is Some,
        reflects(
            find_in(d.city_objects, d.family_keys(i)[j])->0,
            d.lists(),
            find_in(
                collected(d.header(), d.features().take(m)).city_objects,
                d.family_keys(i)[j],
            )->0,
            collected(d.header(), d.features().take(m)).lists(),
        ),
    decreases m,
{
    let key = d.family_keys(i)[j];
    let o0 = find_in(d.city_objects, key)->0;
    let fs = d.features();
    let h = d.header();
    let c0 = collected(h, fs.take(m - 1));
    let c = collected(h, fs.take(m));
    let f = d.feature(m - 1);
    lemma_collected_step(h, fs, m - 1);
    assert(fs[m - 1] == f);
    let fam = d.family(m - 1);
    let split = Plan::split();
    let t = d.feature_tables(m - 1);
    let shift = c0.vertices.len() as usize;
    let merge = Plan::merge(shift);
    let merged = c0.merged(f, TablesView::empty());
    let t2 = merged.tables;
    let cut = objects_transferred(fam, split, t);
    let added = objects_transferred(f.city_objects, merge, t2);
    assert(c.city_objects == put_all(c0.city_objects, added));
    assert(tables_fit(d.feature_tables(m - 1)));
    assert(merge_fits(collected(d.header(), d.features().take(m - 1)), d.feature(m - 1)));
    assert forall|x: int| 0 <= x < fam.len() && (#[trigger] fam[x]).0 == key implies fam[x].1
        == o0 by {}
    lemma_transferred_uniform(fam, split, t, key, o0);
    let o1 = o0.transferred(split, t);
    lemma_gathered_uniform(cut, key, o1);
    lemma_transferred_uniform(f.city_objects, merge, t2, key, o1);
    let o2 = o1.transferred(merge, t2);
    lemma_find_put_all(c0.city_objects, added, key, o2);
    lemma_merge_reflects(c0, f, o1);
    if present(fam, key) {
        let x = choose|x: int| 0 <= x < fam.len() && (#[trigger] fam[x]).0 == key;
        let need = objects_need(fam, split);
        lemma_resolved(TablesView::empty(), need, 0);
        lemma_all_need_covers(fam, object_need_fn(split), t, x);
        assert(fam[x].1 == o0);
        lemma_split_reflects(d, m - 1, o0);
        lemma_reflects_chain(o0, d.lists(), o1, f.lists(), o2, c.lists());
    } else {
        if i == m - 1 {
            assert(fam[j].0 == key);
        }
        lemma_collected_reflects(d, m - 1, i, j);
        lemma_reflects_more(o0, d.lists(), find_in(c0.city_objects, key)->0, c0.lists(), c.lists());
    }
}

/// Cutting a document into its features and joining them again gives every
/// object of the features back: it stands under its name and is the same
/// object but for its references, and wherever one of its references was
/// the place of an item of its list, the reference at that place is the
/// place of a vertex with the same coordinates, of a material of the same
/// name, of a texture of the same image, of the same texture vertex.
pub proof fn law_round_trip(d: CityJSONView, i: int, j: int)
    requires
        can_round_trip(d),
        0 <= i < d.sorted_ids.len(),
        0 <= j < d.family_keys(i).len(),
        find_in(d.city_objects, d.family_keys(i)[j]) is Some,
    ensures
        find_in(round_trip(d).city_objects, d.family_keys(i)[j]) is Some,
        alike(
            find_in(d.city_objects, d.family_keys(i)[j])->0,
            find_in(round_trip(d).city_objects, d.family_keys(i)[j])->0,
        ),
        mirrors_coordinates(
            find_in(d.city_objects, d.family_keys(i)[j])->0,
            d.vertices,
            find_in(round_trip(d).city_objects, d.family_keys(i)[j])->0,
            round_trip(d).vertices,
        ),
        shows(
            find_in(d.city_objects, d.family_keys(i)[j])->0.needs(Plan::split()).materials,
            d.lists().materials,
            find_in(round_trip(d).city_objects, d.family_keys(i)[j])->0.needs(
                Plan::split(),
            ).materials,
            round_trip(d).lists().materials,
            name_fn(),
        ),
        shows(
            find_in(d.city_objects, d.family_keys(i)[j])->0.needs(Plan::split()).textures,
            d.lists().textures,
            find_in(round_trip(d).city_objects, d.family_keys(i)[j])->0.needs(
                Plan::split(),
            ).textures,
            round_trip(d).lists().textures,
            image_fn(),
        ),
        shows(
            find_in(d.city_objects, d.family_keys(i)[j])->0.needs(Plan::split()).texture_vertices,
            d.lists().texture_vertices,
            find_in(round_trip(d).city_objects, d.family_keys(i)[j])->0.needs(
                Plan::split(),
            ).texture_vertices,
            round_trip(d).lists().texture_vertices,
            pair_fn(),
        ),
{
    let key = d.family_keys(i)[j];
    let o0 = find_in(d.city_objects, key)->0;
    let fs = d.features();
    let c = collected(d.header(), fs);
    let n = d.sorted_ids.len() as int;
    assert(fs.take(n) =~= fs);
    lemma_fits_each_step(d);
    lemma_collected_reflects(d, n, i, j);
    lemma_collected_step(d.header(), fs, n - 1);
    assert(merge_fits(collected(d.header(), d.features().take(n - 1)), d.feature(n - 1)));
    assert(fs[n - 1] == d.feature(n - 1));
    let o1 = find_in(c.city_objects, key)->0;
    let dd = deduped(c.vertices);
    let plan = Plan::vertices();
    let t0 = TablesView { vertices: id_pairs(dd.ids), ..TablesView::empty() };
    let need = objects_need(c.city_objects, plan);
    let t = t0.resolved(need, 0);
    lemma_deduped(c.vertices);
    lemma_id_pairs(dd.ids, 0);
    lemma_resolve_all(t0.vertices, need.vertices, 0);
    lemma_find_transferred(c.city_objects, plan, t, key);
    lemma_dedup_mirrors(o1, c.vertices, t);
    let o2 = o1.transferred(plan, t);
    lemma_transferred_alike(o1, plan, t);
    lemma_alike_chain(o0, o1, o2);
    lemma_object_ids(o1, plan, t);
    assert forall|g: int, k: int, p: int|
        #[trigger] has_place(o0, g, k, p) && index_in(o0, g, k, p) < d.vertices.len() implies has_place(
        o2,
        g,
        k,
        p,
    ) && index_in(o2, g, k, p) < dd.vertices.len() && key_of(dd.vertices[index_in(o2, g, k, p)])
        == key_of(d.vertices[index_in(o0, g, k, p)]) by {
        assert(has_place(o1, g, k, p));
    }
}

/// Joining the features that a document was cut into gives every object of
/// the features back, before the vertices that occur twice are removed: it
/// stands under its name and is the same object but for its references,
/// with boundaries that nest as they did; and wherever one of its
/// references was the place of an item of its list, the reference at that
/// place is the place of the same vertex, of a material of the same name,
/// of a texture of the same image, of the same texture vertex.
pub proof fn law_joined(d: CityJSONView, i: int, j: int)
    requires
        can_round_trip(d),
        0 <= i < d.sorted_ids.len(),
        0 <= j < d.family_keys(i).len(),
        find_in(d.city_objects, d.family_keys(i)[j]) is Some,
    ensures
        find_in(collected(d.header(), d.features()).city_objects, d.family_keys(i)[j]) is Some,
        reflects(
            find_in(d.city_objects, d.family_keys(i)[j])->0,
            d.lists(),
            find_in(collected(d.header(), d.features()).city_objects, d.family_keys(i)[j])->0,
            collected(d.header(), d.features()).lists(),
        ),
{
    let n = d.sorted_ids.len() as int;
    assert(d.features().take(n) =~= d.features());
    lemma_fits_each_step(d);
    lemma_collected_reflects(d, n, i, j);
}

/// Whether `key` is the name of an object of one of the first `m` features
/// of the document.
pub open spec fn in_features(d: CityJSONView, m: int, key: Seq<char>) -> bool {
    exists|i: int, j: int|
        0 <= i < m && 0 <= j < d.family_keys(i).len() && #[trigger] d.family_keys(i)[j] == key
}

/// Joining features into a header leaves what the header says of itself as
/// it is, puts the names of the features in their order, and adds no object
/// that is not one of a feature.
pub proof fn lemma_collected_frame(d: CityJSONView, m: int)
    requires
        0 <= m <= d.sorted_ids.len(),
    ensures
        collected(d.header(), d.features().take(m)) == (CityJSONView {
            city_objects: collected(d.header(), d.features().take(m)).city_objects,
            vertices: collected(d.header(), d.features().take(m)).vertices,
            appearance: collected(d.header(), d.features().take(m)).appearance,
            sorted_ids: d.sorted_ids.take(m),
            ..d.header()
        }),
        forall|key: Seq<char>|
            present(collected(d.header(), d.features().take(m)).city_objects, key) ==> in_features(
                d,
                m,
                key,
            ),
    decreases m,
{
    let h = d.header();
    let fs = d.features();
    let c = collected(h, fs.take(m));
    if m == 0 {
        assert(d.sorted_ids.take(0) =~= Seq::<Seq<char>>::empty());
    } else {
        lemma_collected_frame(d, m - 1);
        lemma_collected_step(h, fs, m - 1);
        let c0 = collected(h, fs.take(m - 1));
        let f = d.feature(m - 1);
        assert(fs[m - 1] == f);
        assert(d.sorted_ids.take(m) =~= d.sorted_ids.take(m - 1).push(d.sorted_ids[m - 1]));
        let merged = c0.merged(f, TablesView::empty());
        let added = merged.feature.city_objects;
        let fam = d.family(m - 1);
        let cut = objects_transferred(fam, Plan::split(), d.feature_tables(m - 1));
        assert forall|key: Seq<char>| present(c.city_objects, key) implies in_features(
            d,
            m,
            key,
        ) by {
            let x = choose|x: int| 0 <= x < c.city_objects.len() && (#[trigger] c.city_objects[x]).0 == key;
            crate::namemap::lemma_put_all_from(c0.city_objects, added, x);
            if exists|y: int| 0 <= y < added.len() && c.city_objects[x] == added[y] {
                let y = choose|y: int| 0 <= y < added.len() && c.city_objects[x] == added[y];
                assert(f.city_objects[y].0 == key);
                crate::namemap::lemma_gathered_is_put_all(cut);
                crate::namemap::lemma_put_all_from(Seq::empty(), cut, y);
                let z = choose|z: int| 0 <= z < cut.len() && f.city_objects[y] == cut[z];
                assert(fam[z].0 == key);
                assert(d.family_keys(m - 1)[z] == key);
            } else {
                let y = choose|y: int|
                    0 <= y < c0.city_objects.len() && c.city_objects[x] == c0.city_objects[y];
                assert(c0.city_objects[y].0 == key);
                assert(present(c0.city_objects, key));
                assert(in_features(d, m - 1, key));
                let w = choose|i: int, j: int|
                    0 <= i < m - 1 && 0 <= j < d.family_keys(i).len() && #[trigger] d.family_keys(
                        i,
                    )[j] == key;
                assert(d.family_keys(w.0)[w.1] == key);
            }
        }
    }
}

/// Cutting a document into its features and joining them again leaves what
/// the document says of itself as it is: its type, its version, its
/// transform, its metadata, its extensions and what else it holds; the
/// order of its features is the same; and every object that is there
/// afterwards is one of a feature.
pub proof fn law_round_trip_frame(d: CityJSONView)
    ensures
        round_trip(d).thetype == d.thetype,
        round_trip(d).version == d.version,
        round_trip(d).transform == d.transform,
        round_trip(d).metadata == d.metadata,
        round_trip(d).extensions == d.extensions,
        round_trip(d).other == d.other,
        round_trip(d).sorted_ids == d.sorted_ids,
        forall|key: Seq<char>|
            present(round_trip(d).city_objects, key) ==> in_features(
                d,
                d.sorted_ids.len() as int,
                key,
            ),
{
    let n = d.sorted_ids.len() as int;
    let fs = d.features();
    assert(fs.take(n) =~= fs);
    assert(d.sorted_ids.take(n) =~= d.sorted_ids);
    lemma_collected_frame(d, n);
    let c = collected(d.header(), fs);
    let r = round_trip(d);
    assert forall|key: Seq<char>| present(r.city_objects, key) implies in_features(d, n, key) by {
        let x = choose|x: int| 0 <= x < r.city_objects.len() && (#[trigger] r.city_objects[x]).0 == key;
        assert(c.city_objects[x].0 == key);
        assert(present(c.city_objects, key));
    }
}

/// Whether an object stands in the document under the name of each object
/// of each of its features.
pub open spec fn families_found(d: CityJSONView) -> bool {
    forall|i: int, j: int|
        0 <= i < d.sorted_ids.len() && 0 <= j < d.family_keys(i).len() ==> find_in(
            d.city_objects,
            #[trigger] d.family_keys(i)[j],
        ) is Some
}

/// Whether every object of the document is one of a feature: an object
/// without a parent that is in the order of the features, or a child that
/// such an object names.
pub open spec fn all_in_features(d: CityJSONView) -> bool {
    forall|key: Seq<char>| #[trigger]
        present(d.city_objects, key) ==> in_features(d, d.sorted_ids.len() as int, key)
}

/// Cutting a document into its features and joining them again gives the
/// names of the objects of the features, none more and none less, both
/// before and after the vertices that occur twice are removed; where every
/// object of the document is one of a feature, these are the names of the
/// objects of the document.
pub proof fn law_round_trip_names(d: CityJSONView)
    requires
        can_round_trip(d),
        families_found(d),
    ensures
        forall|key: Seq<char>|
            present(collected(d.header(), d.features()).city_objects, key) <==> in_features(
                d,
                d.sorted_ids.len() as int,
                key,
            ),
        forall|key: Seq<char>|
            present(round_trip(d).city_objects, key) <==> in_features(
                d,
                d.sorted_ids.len() as int,
                key,
            ),
        all_in_features(d) ==> forall|key: Seq<char>|
            present(round_trip(d).city_objects, key) <==> present(d.city_objects, key),
{
    let n = d.sorted_ids.len() as int;
    let fs = d.features();
    let c = collected(d.header(), fs);
    let r = round_trip(d);
    assert(fs.take(n) =~= fs);
    lemma_collected_frame(d, n);
    law_round_trip_frame(d);
    assert forall|key: Seq<char>| in_features(d, n, key) implies present(c.city_objects, key)
        && present(r.city_objects, key) && present(d.city_objects, key) by {
        let w = choose|i: int, j: int|
            0 <= i < n && 0 <= j < d.family_keys(i).len() && #[trigger] d.family_keys(i)[j] == key;
        assert(find_in(d.city_objects, d.family_keys(w.0)[w.1]) is Some);
        lemma_find_present(d.city_objects, key);
        law_joined(d, w.0, w.1);
        lemma_find_present(c.city_objects, key);
        let x = choose|x: int| 0 <= x < c.city_objects.len() && (#[trigger] c.city_objects[x]).0 == key;
        assert(r.city_objects[x].0 == key);
    }
}

/// The materials and the textures of a feature that is cut out of a
/// document are valid where those of the document are and its appearance
/// holds what the feature refers to.
pub proof fn lemma_feature_valid(d: CityJSONView, i: int)
    requires
        d.appearance_holds(i),
        materials_valid(d.lists().materials),
        textures_valid(d.lists().textures),
    ensures
        materials_valid(d.feature(i).materials()),
        textures_valid(d.feature(i).textures()),
{
    let t = d.feature_tables(i);
    let mats = d.feature(i).materials();
    let texs = d.feature(i).textures();
    assert forall|p: int| 0 <= p < mats.len() implies (#[trigger] mats[p]).valid() by {
        let m = d.appearance->0.materials->0;
        assert(t.materials[p].0 < m.len());
        assert(mats[p] == m[t.materials[p].0 as int]);
        assert(d.lists().materials[t.materials[p].0 as int].valid());
    }
    assert forall|p: int| 0 <= p < texs.len() implies (#[trigger] texs[p]).valid() by {
        let x = d.appearance->0.textures->0;
        assert(t.textures[p].0 < x.len());
        assert(texs[p] == x[t.textures[p].0 as int]);
        assert(d.lists().textures[t.textures[p].0 as int].valid());
    }
}

/// Each of the first `m` features of a document that can be cut and joined
/// again, and whose materials and textures are valid, can be added to what
/// the features before it gave.
pub proof fn lemma_prefix_joins(d: CityJSONView, m: int)
    requires
        can_round_trip(d),
        materials_valid(d.lists().materials),
        textures_valid(d.lists().textures),
        0 <= m <= d.sorted_ids.len(),
    ensures
        first_unmergeable(d.header(), d.features().take(m)) is None,
    decreases m,
{
    let h = d.header();
    let fs = d.features();
    if m > 0 {
        lemma_prefix_joins(d, m - 1);
        assert(fs.take(m).drop_last() =~= fs.take(m - 1));
        assert(fs.take(m).last() == d.feature(m - 1));
        let c = collected(h, fs.take(m - 1));
        let f = d.feature(m - 1);
        assert(d.appearance_holds(m - 1));
        lemma_feature_valid(d, m - 1);
        law_split_indices_valid(d, m - 1);
        lemma_collected_step(h, fs, m - 1);
        assert(fs[m - 1] == f);
        lemma_merged_no_shorter(c, f);
        lemma_collected_no_shorter(h, fs, m);
        lemma_valid_fits(f, c.vertices.len() as usize);
        assert(c.mergeable(f));
    }
}

/// The features that a document is cut into can be joined again, each
/// added to what the features before it gave, where the document can be
/// cut and joined again and its materials and textures are valid.
pub proof fn law_features_join(d: CityJSONView)
    requires
        can_round_trip(d),
        materials_valid(d.lists().materials),
        textures_valid(d.lists().textures),
    ensures
        first_unmergeable(d.header(), d.features()) is None,
{
    let n = d.sorted_ids.len() as int;
    assert(d.features().take(n) =~= d.features());
    lemma_prefix_joins(d, n);
}

} // verus!
