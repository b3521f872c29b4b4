//! Documents and features, and the cutting of a document into features.

use crate::appearance::{
    add_material_to, add_texture_to, add_vertices_texture_to, all_below, appearance_view,
    clone_appearance, copy_items, olds_below, or_empty, picked, Appearance, AppearanceView,
    MaterialObject, TextureObject, Validate,
};
use crate::text::{sort_texts, sorted_texts};
use crate::cityobject::{
    lemma_objects_stable, object_need_fn, objects_need, objects_transferred, CityObject,
    CityObjectView, Objects,
};
use crate::error::{CjseqError, Result};
use crate::geometry::{geometries_need, geometries_transferred, transfer_geometries};
use crate::json::clone_json;
use crate::metadata::{
    Extension, GeometryTemplates, GeometryTemplatesView, Metadata, Transform, TransformView,
};
use crate::namemap::{find_in, gathered, put_in, NameMap};
use crate::remap::IdRemap;
use crate::scalar::Scalar;
use crate::tables::{
    all_need, lemma_all_need_take, lemma_resolved, lemma_resolved_none, lemma_resolved_plus,
    Motion, Plan, Tables, TablesView,
};
use vstd::prelude::*;
use vstd::string::StringExecFns;

verus! {

/// The order in which the features of a document are handed out.
#[derive(Clone, Copy, Debug, PartialEq, Eq)]
pub enum SortingStrategy {
    /// As the objects stand in the document.
    Random,
    /// By name.
    Alphabetical,
    /// Along the Morton curve; not offered yet.
    Morton,
    /// Along the Hilbert curve; not offered yet.
    Hilbert,
}

/// One feature: a top-level city object with its children, their vertices
/// and their appearance, numbered from zero.
#[derive(Debug, PartialEq)]
pub struct CityJSONFeature {
    pub thetype: String,
    pub id: String,
    pub city_objects: NameMap<CityObject>,
    pub vertices: Vec<Vec<i64>>,
    pub appearance: Option<Appearance>,
    pub extensions: Option<NameMap<Extension>>,
}

/// What a [`CityJSONFeature`] holds.
pub struct CityJSONFeatureView {
    pub thetype: Seq<char>,
    pub id: Seq<char>,
    pub city_objects: Objects,
    pub vertices: Seq<Seq<i64>>,
    pub appearance: Option<AppearanceView>,
    pub extensions: Option<Seq<(Seq<char>, Extension)>>,
}

/// What the extensions hold, if they are there.
pub open spec fn extensions_view(e: Option<NameMap<Extension>>) -> Option<
    Seq<(Seq<char>, Extension)>,
> {
    match e {
        Some(x) => Some(x.deep_view()),
        None => None,
    }
}

/// A copy of extensions that may be absent.
pub fn clone_extensions(e: &Option<NameMap<Extension>>) -> (r: Option<NameMap<Extension>>)
    ensures
        extensions_view(r) == extensions_view(*e),
{
    match e {
        Some(x) => {
            let c = x.clone();
            assert(c.deep_view() =~= x.deep_view());
            Some(c)
        },
        None => None,
    }
}

/// A copy of a list of vertices.
pub fn clone_vertices(v: &Vec<Vec<i64>>) -> (r: Vec<Vec<i64>>)
    ensures
        r.deep_view() == v.deep_view(),
{
    let n = v.len();
    let mut r: Vec<Vec<i64>> = Vec::new();
    let mut i: usize = 0;
    while i < n
        invariant
            i <= n,
            n == v@.len(),
            r@.len() == i,
            forall|j: int| 0 <= j < i ==> (#[trigger] r@[j])@ == v@[j]@,
        decreases n - i,
    {
        r.push(copy_items(&v[i]));
        i += 1;
    }
    assert(r.deep_view() =~= v.deep_view());
    r
}

/// The vertices of `source` that `table` records, in the order of the table.
pub fn pick_vertices(source: &Vec<Vec<i64>>, table: &IdRemap) -> (r: Vec<Vec<i64>>)
    requires
        olds_below(table@, source@.len() as int),
    ensures
        r.deep_view() == picked(source.deep_view(), table@),
{
    let n = table.len();
    let mut r: Vec<Vec<i64>> = Vec::new();
    let mut p: usize = 0;
    while p < n
        invariant
            p <= n,
            n == table@.len(),
            r@.len() == p,
            olds_below(table@, source@.len() as int),
            forall|q: int| 0 <= q < p ==> (#[trigger] r@[q])@ == source@[table@[q].0 as int]@,
        decreases n - p,
    {
        let old_id = table.pair_at(p).0;
        r.push(copy_items(&source[old_id]));
        p += 1;
    }
    assert(r.deep_view() =~= picked(source.deep_view(), table@));
    r
}

impl DeepView for CityJSONFeature {
    type V = CityJSONFeatureView;

    open spec fn deep_view(&self) -> CityJSONFeatureView {
        CityJSONFeatureView {
            thetype: self.thetype@,
            id: self.id@,
            city_objects: self.city_objects.deep_view(),
            vertices: self.vertices.deep_view(),
            appearance: appearance_view(self.appearance),
            extensions: extensions_view(self.extensions),
        }
    }
}

impl View for CityJSONFeature {
    type V = CityJSONFeatureView;

    open spec fn view(&self) -> CityJSONFeatureView {
        self.deep_view()
    }
}

impl Clone for CityJSONFeature {
    fn clone(&self) -> (r: Self)
        ensures
            r@ == self@,
    {
        let city_objects = self.city_objects.clone();
        assert(city_objects.deep_view() =~= self.city_objects.deep_view());
        CityJSONFeature {
            thetype: self.thetype.clone(),
            id: self.id.clone(),
            city_objects,
            vertices: clone_vertices(&self.vertices),
            appearance: clone_appearance(&self.appearance),
            extensions: clone_extensions(&self.extensions),
        }
    }
}

impl CityJSONFeatureView {
    /// A feature without a name, objects or vertices.
    pub open spec fn empty() -> CityJSONFeatureView {
        CityJSONFeatureView {
            thetype: "CityJSONFeature"@,
            id: ""@,
            city_objects: Seq::empty(),
            vertices: Seq::empty(),
            appearance: None,
            extensions: None,
        }
    }
}

impl CityJSONFeature {
    /// A feature without a name, objects or vertices.
    pub fn new() -> (f: Self)
        ensures
            f@ == CityJSONFeatureView::empty(),
    {
        let f = CityJSONFeature {
            thetype: String::from_str("CityJSONFeature"),
            id: String::from_str(""),
            city_objects: NameMap::new(),
            vertices: Vec::new(),
            appearance: None,
            extensions: None,
        };
        assert(f.city_objects.deep_view() =~= Seq::<(Seq<char>, CityObjectView)>::empty());
        assert(f.vertices.deep_view() =~= Seq::<Seq<i64>>::empty());
        f
    }

    /// Puts the object `co` under the name `id`.
    pub fn add_co(&mut self, id: String, co: CityObject)
        ensures
            final(self)@ == (CityJSONFeatureView {
                city_objects: put_in(old(self)@.city_objects, id@, co@),
                ..old(self)@
            }),
    {
        let ghost before = self.city_objects;
        self.city_objects.insert(id, co);
        proof {
            NameMap::lemma_put(before, self.city_objects, id, co);
        }
    }
}

/// A whole city model: one list of vertices and one appearance for all of
/// its objects.
#[derive(Debug, PartialEq)]
pub struct CityJSON {
    pub thetype: String,
    pub version: String,
    pub transform: Transform,
    pub city_objects: NameMap<CityObject>,
    pub vertices: Vec<Vec<i64>>,
    pub metadata: Option<Metadata>,
    pub appearance: Option<Appearance>,
    pub geometry_templates: Option<GeometryTemplates>,
    pub extensions: Option<NameMap<Extension>>,
    pub other: Option<serde_json::Value>,
    pub sorted_ids: Vec<String>,
}

/// What a [`CityJSON`] holds.
pub struct CityJSONView {
    pub thetype: Seq<char>,
    pub version: Seq<char>,
    pub transform: TransformView,
    pub city_objects: Objects,
    pub vertices: Seq<Seq<i64>>,
    pub metadata: Option<Metadata>,
    pub appearance: Option<AppearanceView>,
    pub geometry_templates: Option<GeometryTemplatesView>,
    pub extensions: Option<Seq<(Seq<char>, Extension)>>,
    pub other: Option<serde_json::Value>,
    pub sorted_ids: Seq<Seq<char>>,
}

/// What geometry templates hold, if they are there.
pub open spec fn templates_view(t: Option<GeometryTemplates>) -> Option<GeometryTemplatesView> {
    match t {
        Some(x) => Some(x@),
        None => None,
    }
}

impl DeepView for CityJSON {
    type V = CityJSONView;

    open spec fn deep_view(&self) -> CityJSONView {
        CityJSONView {
            thetype: self.thetype@,
            version: self.version@,
            transform: self.transform@,
            city_objects: self.city_objects.deep_view(),
            vertices: self.vertices.deep_view(),
            metadata: self.metadata,
            appearance: appearance_view(self.appearance),
            geometry_templates: templates_view(self.geometry_templates),
            extensions: extensions_view(self.extensions),
            other: self.other,
            sorted_ids: self.sorted_ids.deep_view(),
        }
    }
}

impl View for CityJSON {
    type V = CityJSONView;

    open spec fn view(&self) -> CityJSONView {
        self.deep_view()
    }
}

/// A copy of metadata that may be absent.
pub fn clone_metadata(m: &Option<Metadata>) -> (r: Option<Metadata>)
    ensures
        r == *m,
{
    match m {
        Some(x) => Some(x.clone()),
        None => None,
    }
}

/// A copy of geometry templates that may be absent.
pub fn clone_templates(t: &Option<GeometryTemplates>) -> (r: Option<GeometryTemplates>)
    ensures
        templates_view(r) == templates_view(*t),
{
    match t {
        Some(x) => Some(x.clone()),
        None => None,
    }
}

impl Clone for CityJSON {
    fn clone(&self) -> (r: Self)
        ensures
            r@ == self@,
    {
        let city_objects = self.city_objects.clone();
        assert(city_objects.deep_view() =~= self.city_objects.deep_view());
        let sorted_ids = self.sorted_ids.clone();
        assert(sorted_ids.deep_view() =~= self.sorted_ids.deep_view());
        CityJSON {
            thetype: self.thetype.clone(),
            version: self.version.clone(),
            transform: self.transform.clone(),
            city_objects,
            vertices: clone_vertices(&self.vertices),
            metadata: clone_metadata(&self.metadata),
            appearance: clone_appearance(&self.appearance),
            geometry_templates: clone_templates(&self.geometry_templates),
            extensions: clone_extensions(&self.extensions),
            other: clone_json(&self.other),
            sorted_ids,
        }
    }
}

/// The first of `keys` under which `objects` holds nothing.
pub open spec fn first_missing(objects: Objects, keys: Seq<Seq<char>>) -> Option<int>
    decreases keys.len(),
{
    if keys.len() == 0 {
        None
    } else {
        match first_missing(objects, keys.drop_last()) {
            Some(k) => Some(k),
            None => if find_in(objects, keys.last()) is None {
                Some(keys.len() - 1)
            } else {
                None
            },
        }
    }
}

/// The objects that stand under `keys`, each under its name.
pub open spec fn found(objects: Objects, keys: Seq<Seq<char>>) -> Objects {
    Seq::new(keys.len(), |k: int| (keys[k], find_in(objects, keys[k])->0))
}

impl CityJSONView {
    /// A document of the current version without anything in it.
    pub open spec fn empty() -> CityJSONView {
        CityJSONView {
            thetype: "CityJSON"@,
            version: "2.0"@,
            transform: TransformView::identity(),
            city_objects: Seq::empty(),
            vertices: Seq::empty(),
            metadata: None,
            appearance: None,
            geometry_templates: None,
            extensions: None,
            other: None,
            sorted_ids: Seq::empty(),
        }
    }

    /// Whether there is a feature `i`: an `i`-th name in the order of the
    /// features, and an object under it.
    pub open spec fn has_feature(self, i: int) -> bool {
        0 <= i < self.sorted_ids.len() && find_in(self.city_objects, self.sorted_ids[i]) is Some
    }

    /// The names of the objects of feature `i`: its top-level object, then
    /// the children of that object. Children of children are left out.
    pub open spec fn family_keys(self, i: int) -> Seq<Seq<char>> {
        seq![self.sorted_ids[i]] + find_in(
            self.city_objects,
            self.sorted_ids[i],
        )->0.children_keys()
    }

    /// The objects of feature `i`, as they stand in the document.
    pub open spec fn family(self, i: int) -> Objects {
        found(self.city_objects, self.family_keys(i))
    }

    /// What the tables of feature `i` record: everything that its objects
    /// refer to, renumbered from zero in document order.
    pub open spec fn feature_tables(self, i: int) -> TablesView {
        TablesView::empty().resolved(objects_need(self.family(i), Plan::split()), 0)
    }

    /// Feature `i`: its objects renumbered, the vertices that they refer to,
    /// and the part of the appearance that they refer to.
    pub open spec fn feature(self, i: int) -> CityJSONFeatureView {
        let t = self.feature_tables(i);
        CityJSONFeatureView {
            thetype: "CityJSONFeature"@,
            id: self.sorted_ids[i],
            city_objects: gathered(objects_transferred(self.family(i), Plan::split(), t)),
            vertices: picked(self.vertices, t.vertices),
            appearance: match self.appearance {
                Some(a) => Some(a.sliced(t)),
                None => None,
            },
            extensions: None,
        }
    }

    /// Whether there is a vertex for every vertex index of feature `i`.
    pub open spec fn vertices_hold(self, i: int) -> bool {
        olds_below(self.feature_tables(i).vertices, self.vertices.len() as int)
    }

    /// Whether the appearance, if there is one, holds every material,
    /// texture and texture vertex that feature `i` refers to.
    pub open spec fn appearance_holds(self, i: int) -> bool {
        match self.appearance {
            Some(a) => a.holds(self.feature_tables(i)),
            None => true,
        }
    }

    /// Whether feature `i` can be cut out, if there is one: every child that
    /// its top-level object names is there, and so is everything that its
    /// objects refer to.
    pub open spec fn splittable(self, i: int) -> bool {
        self.has_feature(i) ==> first_missing(self.city_objects, self.family_keys(i)) is None
            && self.vertices_hold(i) && self.appearance_holds(i)
    }
}

/// The names of the objects without a parent, in order.
pub open spec fn toplevel_keys(os: Objects) -> Seq<Seq<char>>
    decreases os.len(),
{
    if os.len() == 0 {
        Seq::empty()
    } else if os.last().1.is_toplevel() {
        toplevel_keys(os.drop_last()).push(os.last().0)
    } else {
        toplevel_keys(os.drop_last())
    }
}

impl CityJSONView {
    /// What the tables of the header record: every material, texture and
    /// texture vertex that the geometry templates refer to, renumbered from
    /// zero in document order.
    pub open spec fn template_tables(self) -> TablesView {
        match self.geometry_templates {
            Some(x) => TablesView::empty().resolved(
                geometries_need(x.templates, Plan::templates()),
                0,
            ),
            None => TablesView::empty(),
        }
    }

    /// Whether the appearance holds everything that the geometry templates
    /// refer to, where there are both.
    pub open spec fn header_holds(self) -> bool {
        self.geometry_templates is Some && self.appearance is Some
            ==> self.appearance->0.holds(self.template_tables())
    }

    /// The header of the stream of features: the document without objects
    /// and vertices. With geometry templates, their references into the
    /// appearance are renumbered and the header has the part of the
    /// appearance that they refer to; without, it has no appearance.
    pub open spec fn header(self) -> CityJSONView {
        let t = self.template_tables();
        CityJSONView {
            city_objects: Seq::empty(),
            vertices: Seq::empty(),
            sorted_ids: Seq::empty(),
            appearance: match (self.geometry_templates, self.appearance) {
                (Some(_), Some(a)) => Some(a.sliced(t)),
                _ => None,
            },
            geometry_templates: match self.geometry_templates {
                Some(x) => Some(
                    GeometryTemplatesView {
                        templates: geometries_transferred(x.templates, Plan::templates(), t),
                        vertices_templates: x.vertices_templates,
                    },
                ),
                None => None,
            },
            ..self
        }
    }
}

impl CityJSONView {
    /// What is wrong with the type or the version of the document, if it is
    /// not a document of the version 1.1 or 2.0.
    pub open spec fn version_fault(self) -> Option<Seq<char>> {
        if self.thetype != "CityJSON"@ {
            Some("Input file not CityJSON."@)
        } else if self.version != "1.1"@ && self.version != "2.0"@ {
            Some("Input file not CityJSON v1.1 nor v2.0."@)
        } else {
            None
        }
    }

    /// Whether `e` says what stands against cutting out feature `i`: the
    /// first child that is named and absent, else a vertex index without a
    /// vertex, else a reference into the appearance without an item there.
    pub open spec fn split_fault(self, i: int, e: CjseqError) -> bool {
        match first_missing(self.city_objects, self.family_keys(i)) {
            Some(k) => e matches CjseqError::MissingObject(name) && name@ == self.family_keys(i)[k],
            None => if !self.vertices_hold(i) {
                e matches CjseqError::InvalidValue { field, reason } && field@ == "boundaries"@
                    && reason@ == "vertex index out of range"@
            } else {
                !self.appearance_holds(i) && (e matches CjseqError::InvalidValue { field, reason }
                    && field@ == "appearance"@ && reason@ == "index out of range"@)
            },
        }
    }

    /// The features of the document, in their order.
    pub open spec fn features(self) -> Seq<CityJSONFeatureView> {
        Seq::new(self.sorted_ids.len(), |i: int| self.feature(i))
    }

    /// The first of the first `n` features that cannot be cut out.
    pub open spec fn first_unsplittable(self, n: int) -> Option<int>
        decreases n,
    {
        if n <= 0 {
            None
        } else {
            match self.first_unsplittable(n - 1) {
                Some(k) => Some(k),
                None => if self.splittable(n - 1) {
                    None
                } else {
                    Some(n - 1)
                },
            }
        }
    }
}

/// A feature that cannot be cut out among the first `m` is the first that
/// cannot be cut out among the first `n`, if `m <= n`.
pub proof fn lemma_first_unsplittable(d: CityJSONView, m: int, n: int)
    requires
        0 <= m <= n,
        d.first_unsplittable(m) is Some,
    ensures
        d.first_unsplittable(n) == d.first_unsplittable(m),
    decreases n - m,
{
    if m < n {
        lemma_first_unsplittable(d, m + 1, n);
    }
}

/// Every name of an object without a parent is the name of an object.
pub proof fn lemma_toplevel_found(os: Objects, key: Seq<char>)
    requires
        toplevel_keys(os).contains(key),
    ensures
        find_in(os, key) is Some,
    decreases os.len(),
{
    crate::namemap::lemma_find_present(os, key);
    if os.len() > 0 {
        if os.last().0 == key {
            assert(os[os.len() - 1].0 == key);
        } else {
            let t = toplevel_keys(os);
            let x = choose|x: int| 0 <= x < t.len() && t[x] == key;
            let front = toplevel_keys(os.drop_last());
            if os.last().1.is_toplevel() {
                assert(t == front.push(os.last().0));
                assert(front[x] == key);
            }
            assert(front.contains(key));
            lemma_toplevel_found(os.drop_last(), key);
            crate::namemap::lemma_find_present(os.drop_last(), key);
            let j = choose|j: int|
                0 <= j < os.drop_last().len() && (#[trigger] os.drop_last()[j]).0 == key;
            assert(os[j].0 == key);
        }
    }
}

/// The error for a vertex index without a vertex.
fn vertex_out_of_range<T>() -> (r: Result<T>)
    ensures
        r matches Err(CjseqError::InvalidValue { field, reason }) && field@ == "boundaries"@
            && reason@ == "vertex index out of range"@,
{
    Err(
        CjseqError::InvalidValue {
            field: String::from_str("boundaries"),
            reason: String::from_str("vertex index out of range"),
        },
    )
}

/// The error for a reference into the appearance without an item there.
fn appearance_out_of_range<T>() -> (r: Result<T>)
    ensures
        r matches Err(CjseqError::InvalidValue { field, reason }) && field@ == "appearance"@
            && reason@ == "index out of range"@,
{
    Err(
        CjseqError::InvalidValue {
            field: String::from_str("appearance"),
            reason: String::from_str("index out of range"),
        },
    )
}

impl CityJSON {
    /// A document of the current version without anything in it.
    pub fn new() -> (d: Self)
        ensures
            d@ == CityJSONView::empty(),
    {
        let d = CityJSON {
            thetype: String::from_str("CityJSON"),
            version: String::from_str("2.0"),
            transform: Transform::new(),
            city_objects: NameMap::new(),
            vertices: Vec::new(),
            metadata: None,
            appearance: None,
            geometry_templates: None,
            extensions: None,
            other: None,
            sorted_ids: Vec::new(),
        };
        assert(d.city_objects.deep_view() =~= Seq::<(Seq<char>, CityObjectView)>::empty());
        assert(d.vertices.deep_view() =~= Seq::<Seq<i64>>::empty());
        assert(d.sorted_ids.deep_view() =~= Seq::<Seq<char>>::empty());
        d
    }

    /// Tells whether the document is one that can be cut into features: a
    /// document of the version 1.1 or 2.0.
    pub fn check_version(&self) -> (r: Result<()>)
        ensures
            match self@.version_fault() {
                Some(fault) => r matches Err(CjseqError::CityJsonError(m)) && m@ == fault,
                None => r is Ok,
            },
    {
        if self.thetype != String::from_str("CityJSON") {
            return Err(CjseqError::CityJsonError(String::from_str("Input file not CityJSON.")));
        }
        if self.version != String::from_str("1.1") && self.version != String::from_str("2.0") {
            return Err(
                CjseqError::CityJsonError(
                    String::from_str("Input file not CityJSON v1.1 nor v2.0."),
                ),
            );
        }
        Ok(())
    }

    /// The header of the stream of features, or an error if the geometry
    /// templates refer to something that the appearance does not hold.
    pub fn metadata_header(&self) -> (r: Result<CityJSON>)
        ensures
            if self@.header_holds() {
                r matches Ok(h) && h@ == self@.header()
            } else {
                r matches Err(CjseqError::InvalidValue { field, reason }) && field@
                    == "appearance"@ && reason@ == "index out of range"@
            },
    {
        let mut cj0 = CityJSON {
            thetype: self.thetype.clone(),
            version: self.version.clone(),
            transform: self.transform.clone(),
            city_objects: NameMap::new(),
            vertices: Vec::new(),
            metadata: clone_metadata(&self.metadata),
            appearance: None,
            geometry_templates: None,
            extensions: clone_extensions(&self.extensions),
            other: clone_json(&self.other),
            sorted_ids: Vec::new(),
        };
        proof {
            assert(cj0.city_objects.deep_view() =~= Seq::<(Seq<char>, CityObjectView)>::empty());
            assert(cj0.vertices.deep_view() =~= Seq::<Seq<i64>>::empty());
            assert(cj0.sorted_ids.deep_view() =~= Seq::<Seq<char>>::empty());
        }
        match &self.geometry_templates {
            Some(x) => {
                let mut gts2 = x.clone();
                let mut tables = Tables::new();
                let plan = Plan { boundaries: Motion::Keep, appearance: true };
                transfer_geometries(&mut gts2.templates, plan, &mut tables, 0);
                match &self.appearance {
                    Some(a) => {
                        if !a.holds(&tables) {
                            return appearance_out_of_range();
                        }
                        cj0.appearance = Some(a.slice(&tables));
                    },
                    None => {},
                }
                cj0.geometry_templates = Some(gts2);
            },
            None => {},
        }
        Ok(cj0)
    }

    /// The document without objects, vertices and appearance; the rest as
    /// it stands.
    pub fn get_empty_copy(&self) -> (h: Self)
        ensures
            h@ == (CityJSONView {
                city_objects: Seq::empty(),
                vertices: Seq::empty(),
                sorted_ids: Seq::empty(),
                appearance: None,
                ..self@
            }),
    {
        let h = CityJSON {
            thetype: self.thetype.clone(),
            version: self.version.clone(),
            transform: self.transform.clone(),
            city_objects: NameMap::new(),
            vertices: Vec::new(),
            metadata: clone_metadata(&self.metadata),
            appearance: None,
            geometry_templates: clone_templates(&self.geometry_templates),
            extensions: clone_extensions(&self.extensions),
            other: clone_json(&self.other),
            sorted_ids: Vec::new(),
        };
        proof {
            assert(h.city_objects.deep_view() =~= Seq::<(Seq<char>, CityObjectView)>::empty());
            assert(h.vertices.deep_view() =~= Seq::<Seq<i64>>::empty());
            assert(h.sorted_ids.deep_view() =~= Seq::<Seq<char>>::empty());
        }
        h
    }

    /// The header of the stream of features.
    pub fn get_metadata(&self) -> (h: Self)
        requires
            self@.header_holds(),
        ensures
            h@ == self@.header(),
    {
        match self.metadata_header() {
            Ok(h) => h,
            Err(_) => CityJSON::new(),
        }
    }

    /// The number of objects without a parent.
    pub fn number_of_city_objects(&self) -> (total: usize)
        ensures
            total == toplevel_keys(self@.city_objects).len(),
    {
        let ghost os = self@.city_objects;
        let n = self.city_objects.entries.len();
        let mut total: usize = 0;
        let mut i: usize = 0;
        assert(os.take(0) =~= Seq::<(Seq<char>, CityObjectView)>::empty());
        while i < n
            invariant
                i <= n,
                n == self.city_objects.entries@.len(),
                os == self@.city_objects,
                os.len() == n,
                total <= i,
                total == toplevel_keys(os.take(i as int)).len(),
            decreases n - i,
        {
            assert(os.take(i + 1).drop_last() =~= os.take(i as int));
            assert(os[i as int].1 == self.city_objects.entries@[i as int].1@);
            if self.city_objects.entries[i].1.is_toplevel() {
                total += 1;
            }
            i += 1;
        }
        assert(os.take(n as int) =~= os);
        total
    }

    /// Sets the order in which the features are handed out: that of the
    /// objects without a parent, as they stand in the document or by name.
    pub fn sort_cjfeatures(&mut self, ss: SortingStrategy)
        requires
            ss is Random || ss is Alphabetical,
        ensures
            final(self)@ == (CityJSONView { sorted_ids: final(self)@.sorted_ids, ..old(self)@ }),
            ss is Random ==> final(self)@.sorted_ids == toplevel_keys(old(self)@.city_objects),
            ss is Alphabetical ==> sorted_texts(final(self)@.sorted_ids)
                && final(self)@.sorted_ids.to_multiset() == toplevel_keys(
                old(self)@.city_objects,
            ).to_multiset(),
    {
        let ghost os = self@.city_objects;
        let n = self.city_objects.entries.len();
        let mut ids: Vec<String> = Vec::new();
        let mut i: usize = 0;
        proof {
            assert(os.take(0) =~= Seq::<(Seq<char>, CityObjectView)>::empty());
            assert(ids.deep_view() =~= Seq::<Seq<char>>::empty());
        }
        while i < n
            invariant
                i <= n,
                n == self.city_objects.entries@.len(),
                *self == *old(self),
                os == self@.city_objects,
                os.len() == n,
                ids.deep_view() == toplevel_keys(os.take(i as int)),
            decreases n - i,
        {
            assert(os.take(i + 1).drop_last() =~= os.take(i as int));
            assert(os[i as int].1 == self.city_objects.entries@[i as int].1@);
            assert(os[i as int].0 == self.city_objects.entries@[i as int].0@);
            if self.city_objects.entries[i].1.is_toplevel() {
                let ghost before = ids.deep_view();
                let key = self.city_objects.entries[i].0.clone();
                ids.push(key);
                assert(ids.deep_view() =~= before.push(key@));
            }
            i += 1;
        }
        assert(os.take(n as int) =~= os);
        match ss {
            SortingStrategy::Alphabetical => {
                sort_texts(&mut ids);
            },
            _ => {},
        }
        self.sorted_ids = ids;
    }

    /// Puts the object `co` under the name `id`.
    pub fn add_co(&mut self, id: String, co: CityObject)
        ensures
            final(self)@ == (CityJSONView {
                city_objects: put_in(old(self)@.city_objects, id@, co@),
                ..old(self)@
            }),
    {
        let ghost before = self.city_objects;
        self.city_objects.insert(id, co);
        proof {
            NameMap::lemma_put(before, self.city_objects, id, co);
        }
    }

    /// Moves the vertices of `v` to the end of those of the document.
    pub fn add_vertices(&mut self, v: &mut Vec<Vec<i64>>)
        ensures
            final(self)@ == (CityJSONView {
                vertices: old(self)@.vertices + old(v).deep_view(),
                ..old(self)@
            }),
            final(v)@.len() == 0,
    {
        let ghost a = self.vertices.deep_view();
        let ghost b = v.deep_view();
        self.vertices.append(v);
        assert(self.vertices.deep_view() =~= a + b);
    }

    /// Adds texture vertices at the end of those of the document.
    pub fn add_vertices_texture(&mut self, vs: Vec<[Scalar; 2]>)
        ensures
            final(self)@ == (CityJSONView {
                appearance: Some(or_empty(old(self)@.appearance).with_vertices(vs@)),
                ..old(self)@
            }),
    {
        add_vertices_texture_to(&mut self.appearance, vs);
    }

    /// Adds a material unless the document has one of its name, and gives
    /// the place of the material of that name.
    pub fn add_material(&mut self, jm: MaterialObject) -> (i: usize)
        requires
            jm.valid(),
        ensures
            i == or_empty(old(self)@.appearance).with_material(jm).0,
            final(self)@ == (CityJSONView {
                appearance: Some(or_empty(old(self)@.appearance).with_material(jm).1),
                ..old(self)@
            }),
    {
        add_material_to(&mut self.appearance, jm)
    }

    /// Adds a texture unless the document has one of its image, and gives
    /// the place of the texture of that image.
    pub fn add_texture(&mut self, jm: TextureObject) -> (i: usize)
        requires
            jm.valid(),
        ensures
            i == or_empty(old(self)@.appearance).with_texture(jm).0,
            final(self)@ == (CityJSONView {
                appearance: Some(or_empty(old(self)@.appearance).with_texture(jm).1),
                ..old(self)@
            }),
    {
        add_texture_to(&mut self.appearance, jm)
    }

    /// Cuts feature `i` out of the document. `Ok(None)` if there is no such
    /// feature; an error if the feature cannot be cut out: the first child
    /// that is named and absent, else a vertex index without a vertex, else
    /// a reference into the appearance without an item there.
    pub fn split_feature(&self, i: usize) -> (r: Result<Option<CityJSONFeature>>)
        ensures
            !self@.has_feature(i as int) ==> r matches Ok(None),
            self@.has_feature(i as int) ==> if self@.splittable(i as int) {
                r matches Ok(Some(f)) && f@ == self@.feature(i as int) && f@.indices_valid()
            } else {
                r matches Err(e) && self@.split_fault(i as int, e)
            },
    {
        if i >= self.sorted_ids.len() {
            return Ok(None);
        }
        let id = &self.sorted_ids[i];
        proof {
            self.city_objects.lemma_get(id@);
        }
        let co = match self.city_objects.get(id) {
            Some(co) => co,
            None => {
                return Ok(None);
            },
        };
        let plan = Plan { boundaries: Motion::Renumber, appearance: true };
        let ghost objects = self@.city_objects;
        let ghost keys = self@.family_keys(i as int);
        let ghost fam = self@.family(i as int);
        let ghost need = object_need_fn(plan);
        let mut tables = Tables::new();
        let mut cjf = CityJSONFeature::new();
        let mut co2 = co.clone();
        proof {
            tables.lemma_unique();
            lemma_resolved(tables@, co@.needs(plan), 0);
            assert(fam.take(1) =~= seq![(id@, co@)]);
            assert(fam.take(1).drop_last() =~= Seq::<(Seq<char>, CityObjectView)>::empty());
            lemma_resolved_none(TablesView::empty(), 0);
            lemma_resolved_plus(TablesView::empty(), crate::tables::Ids::none(), co@.needs(plan), 0);
            assert(need(fam.take(1).last()) == co@.needs(plan));
            assert(all_need(fam.take(1).drop_last(), need) == crate::tables::Ids::none());
            assert(all_need(fam.take(1), need) == crate::tables::Ids::none().plus(
                co@.needs(plan),
            ));
        }
        co2.transfer(plan, &mut tables, 0);
        cjf.add_co(id.clone(), co2);
        cjf.id = id.clone();
        let children = co.get_children_keys();
        let n = children.len();
        proof {
            let done = objects_transferred(fam.take(1), plan, tables@);
            assert(done =~= seq![(id@, co2@)]);
            assert(done.drop_last() =~= Seq::<(Seq<char>, CityObjectView)>::empty());
            assert(gathered(done.drop_last()) =~= Seq::<(Seq<char>, CityObjectView)>::empty());
            assert(done.last() == (id@, co2@));
            assert(gathered(done) == put_in(gathered(done.drop_last()), id@, co2@));
            assert(keys.take(1) =~= seq![id@]);
            assert(keys.take(1).drop_last() =~= Seq::<Seq<char>>::empty());
            assert(first_missing(objects, keys.take(1).drop_last()) is None);
            assert(keys.take(1).last() == id@);
            assert(first_missing(objects, keys.take(1)) is None);
        }
        let mut k: usize = 0;
        while k < n
            invariant
                k <= n,
                n == children@.len(),
                children.deep_view() == co@.children_keys(),
                objects == self@.city_objects,
                keys == self@.family_keys(i as int),
                keys.len() == n + 1,
                fam == self@.family(i as int),
                fam.len() == n + 1,
                need == object_need_fn(plan),
                plan == Plan::split(),
                self@.has_feature(i as int),
                find_in(self@.city_objects, self@.sorted_ids[i as int]) == Some(co@),
                first_missing(objects, keys.take(k + 1)) is None,
                tables.wf(),
                tables@ == TablesView::empty().resolved(all_need(fam.take(k + 1), need), 0),
                tables@.covers(all_need(fam.take(k + 1), need)),
                cjf@ == (CityJSONFeatureView {
                    id: self@.sorted_ids[i as int],
                    city_objects: gathered(objects_transferred(fam.take(k + 1), plan, tables@)),
                    ..CityJSONFeatureView::empty()
                }),
            decreases n - k,
        {
            let key = &children[k];
            proof {
                self.city_objects.lemma_get(key@);
                assert(keys[k + 1] == key@);
                assert(keys.take(k + 2).drop_last() =~= keys.take(k + 1));
            }
            let coc = match self.city_objects.get(key) {
                Some(coc) => coc,
                None => {
                    proof {
                        lemma_first_missing_prefix(objects, keys, k + 2);
                    }
                    return Err(CjseqError::MissingObject(key.clone()));
                },
            };
            let ghost before = tables@;
            let mut coc2 = coc.clone();
            proof {
                tables.lemma_unique();
                lemma_all_need_take(fam, need, k + 1);
                assert(fam[k + 1] == (key@, coc@));
                assert(need(fam[k + 1]) == coc@.needs(plan));
            }
            coc2.transfer(plan, &mut tables, 0);
            proof {
                lemma_resolved(before, coc@.needs(plan), 0);
                lemma_resolved_plus(
                    TablesView::empty(),
                    all_need(fam.take(k + 1), need),
                    coc@.needs(plan),
                    0,
                );
                lemma_objects_stable(fam.take(k + 1), plan, before, tables@);
                crate::tables::lemma_covers_plus_back(
                    tables@,
                    all_need(fam.take(k + 1), need),
                    coc@.needs(plan),
                );
                let done = objects_transferred(fam.take(k + 2), plan, tables@);
                assert(done.drop_last() =~= objects_transferred(fam.take(k + 1), plan, tables@));
                assert(done.last() == (key@, coc2@));
            }
            cjf.add_co(key.clone(), coc2);
            k += 1;
        }
        proof {
            assert(keys.take(n + 1) =~= keys);
            assert(fam.take(n + 1) =~= fam);
        }
        if !all_below(&tables.vertices, self.vertices.len()) {
            return vertex_out_of_range();
        }
        proof {
            tables.vertices.lemma_len();
            crate::laws::law_split_indices_valid(self@, i as int);
        }
        cjf.vertices = pick_vertices(&self.vertices, &tables.vertices);
        match &self.appearance {
            Some(a) => {
                if !a.holds(&tables) {
                    return appearance_out_of_range();
                }
                cjf.appearance = Some(a.slice(&tables));
            },
            None => {},
        }
        Ok(Some(cjf))
    }

    /// Cuts the document into the header and the features of a stream: the
    /// document is checked for its version, the order of its features is
    /// set, and the header and then each feature are made. Nothing is made
    /// if the document is of another version, if the header cannot be made,
    /// or if one of the features cannot be cut out; the error is that of
    /// the first of these. The version is checked before the order is
    /// looked at, so a document of another version is turned away whatever
    /// the order asked for.
    #[verifier::loop_isolation(false)]
    pub fn cat(&mut self, order: SortingStrategy) -> (r: Result<(CityJSON, Vec<CityJSONFeature>)>)
        requires
            old(self)@.version_fault() is None ==> (order is Random || order is Alphabetical),
        ensures
            old(self)@.version_fault() is Some ==> final(self)@ == old(self)@ && (r matches Err(
                CjseqError::CityJsonError(m),
            ) && m@ == old(self)@.version_fault()->0),
            old(self)@.version_fault() is None ==> {
                &&& final(self)@ == (CityJSONView {
                    sorted_ids: final(self)@.sorted_ids,
                    ..old(self)@
                })
                &&& order is Random ==> final(self)@.sorted_ids == toplevel_keys(
                    old(self)@.city_objects,
                )
                &&& order is Alphabetical ==> sorted_texts(final(self)@.sorted_ids)
                    && final(self)@.sorted_ids.to_multiset() == toplevel_keys(
                    old(self)@.city_objects,
                ).to_multiset()
                &&& if !final(self)@.header_holds() {
                    r matches Err(CjseqError::InvalidValue { field, reason }) && field@
                        == "appearance"@ && reason@ == "index out of range"@
                } else {
                    match final(self)@.first_unsplittable(final(self)@.sorted_ids.len() as int) {
                        Some(k) => r matches Err(e) && final(self)@.split_fault(k, e),
                        None => r matches Ok(p) && p.0@ == final(self)@.header()
                            && p.1.deep_view() == final(self)@.features(),
                    }
                }
            },
    {
        match self.check_version() {
            Ok(_) => {},
            Err(e) => {
                return Err(e);
            },
        }
        self.sort_cjfeatures(order);
        let header = match self.metadata_header() {
            Ok(h) => h,
            Err(e) => {
                return Err(e);
            },
        };
        let n = self.sorted_ids.len();
        let ghost mid = *self;
        proof {
            let keys = toplevel_keys(self@.city_objects);
            let ids = self@.sorted_ids;
            ids.to_multiset_ensures();
            keys.to_multiset_ensures();
            assert forall|x: int| 0 <= x < n implies #[trigger] self@.has_feature(x) by {
                assert(ids.contains(ids[x]));
                assert(ids.to_multiset().count(ids[x]) > 0);
                assert(keys.to_multiset().count(ids[x]) > 0);
                assert(keys.contains(ids[x]));
                lemma_toplevel_found(self@.city_objects, ids[x]);
            }
        }
        let mut features: Vec<CityJSONFeature> = Vec::new();
        let mut i: usize = 0;
        while i < n
            invariant
                i <= n,
                *self == mid,
                n == self@.sorted_ids.len(),
                forall|x: int| 0 <= x < n ==> #[trigger] self@.has_feature(x),
                self@.first_unsplittable(i as int) is None,
                features@.len() == i,
                forall|j: int| 0 <= j < i ==> (#[trigger] features@[j])@ == self@.feature(j),
            decreases n - i,
        {
            assert(self@.has_feature(i as int));
            match self.split_feature(i) {
                Ok(Some(f)) => {
                    features.push(f);
                },
                Ok(None) => {
                    return Err(CjseqError::Generic(String::from_str("")));
                },
                Err(e) => {
                    proof {
                        lemma_first_unsplittable(self@, i + 1, n as int);
                    }
                    return Err(e);
                },
            }
            i += 1;
        }
        assert(features.deep_view() =~= self@.features());
        Ok((header, features))
    }

    /// Feature `i` of the document, if there is one.
    pub fn get_cjfeature(&self, i: usize) -> (r: Option<CityJSONFeature>)
        requires
            self@.splittable(i as int),
        ensures
            match r {
                Some(f) => self@.has_feature(i as int) && f@ == self@.feature(i as int)
                    && f@.indices_valid(),
                None => !self@.has_feature(i as int),
            },
    {
        match self.split_feature(i) {
            Ok(f) => f,
            Err(_) => None,
        }
    }
}

/// Where an object stands under each of `keys`, none of them is missing.
pub proof fn lemma_none_missing(objects: Objects, keys: Seq<Seq<char>>)
    requires
        forall|j: int| 0 <= j < keys.len() ==> find_in(objects, #[trigger] keys[j]) is Some,
    ensures
        first_missing(objects, keys) is None,
    decreases keys.len(),
{
    if keys.len() > 0 {
        assert forall|j: int| 0 <= j < keys.drop_last().len() implies find_in(
            objects,
            #[trigger] keys.drop_last()[j],
        ) is Some by {
            assert(keys.drop_last()[j] == keys[j]);
        }
        lemma_none_missing(objects, keys.drop_last());
        assert(keys.last() == keys[keys.len() - 1]);
    }
}

/// A key that is missing among the first `n` keys is missing among all, at
/// the same place.
pub proof fn lemma_first_missing_prefix(objects: Objects, keys: Seq<Seq<char>>, n: int)
    requires
        0 <= n <= keys.len(),
        first_missing(objects, keys.take(n)) is Some,
    ensures
        first_missing(objects, keys) == first_missing(objects, keys.take(n)),
    decreases keys.len() - n,
{
    if n < keys.len() {
        assert(keys.take(n + 1).drop_last() =~= keys.take(n));
        lemma_first_missing_prefix(objects, keys, n + 1);
    } else {
        assert(keys.take(n) =~= keys);
    }
}

} // verus!
