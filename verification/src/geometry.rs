//! Geometries: a boundary of vertex indices, and the references to
//! materials and textures that run parallel to it.

use crate::json::clone_json;
use crate::namemap::NameMap;
use crate::nested::{gather, lemma_gather_has, lemma_gather_take, lemma_gather_take_len, NestedArray, Tree};
use crate::remap::{
    covers, extends, has_old, keys_unique, lemma_resolve_all, lemma_resolve_all_concat,
    lemma_resolve_single, new_of, resolve_all, IdRemap, Pairs,
};
use crate::nested::lemma_renumbered_stable;
use crate::scalar::Scalar;
use crate::tables::{add_capped, capped, lemma_resolved, Ids, Motion, Plan, Tables, TablesView};
use crate::values::lemma_replaced_stable;
use vstd::prelude::*;

verus! {

/// The kinds of geometry.
#[derive(Clone, Copy, Debug, PartialEq, Eq)]
pub enum GeometryType {
    MultiPoint,
    MultiLineString,
    MultiSurface,
    CompositeSurface,
    Solid,
    MultiSolid,
    CompositeSolid,
    GeometryInstance,
}

impl GeometryType {
    /// How deep the lists of vertex indices stand in the boundary of a
    /// geometry of this type: points 0, lines 1, surfaces 2, solids 3,
    /// several solids 4. An instance has the boundary of its template.
    pub open spec fn depth(self) -> Option<nat> {
        match self {
            GeometryType::MultiPoint => Some(0),
            GeometryType::MultiLineString => Some(1),
            GeometryType::MultiSurface => Some(2),
            GeometryType::CompositeSurface => Some(2),
            GeometryType::Solid => Some(3),
            GeometryType::MultiSolid => Some(4),
            GeometryType::CompositeSolid => Some(4),
            GeometryType::GeometryInstance => None,
        }
    }

    /// How deep the lists of vertex indices stand in the boundary of a
    /// geometry of this type.
    pub fn boundary_depth(&self) -> (d: Option<usize>)
        ensures
            match self.depth() {
                Some(n) => d == Some(n as usize),
                None => d is None,
            },
    {
        match self {
            GeometryType::MultiPoint => Some(0),
            GeometryType::MultiLineString => Some(1),
            GeometryType::MultiSurface => Some(2),
            GeometryType::CompositeSurface => Some(2),
            GeometryType::Solid => Some(3),
            GeometryType::MultiSolid => Some(4),
            GeometryType::CompositeSolid => Some(4),
            GeometryType::GeometryInstance => None,
        }
    }
}

/// The surface classes of a geometry, nested as its boundary is.
pub type SemanticsValues = NestedArray<Option<u32>>;

/// The material of each surface of a geometry.
pub type MaterialValues = NestedArray<Option<usize>>;

/// The texture of each ring of a geometry: a texture, then one texture vertex
/// for each vertex of the ring.
pub type TextureValues = NestedArray<Option<usize>>;

/// One class of surfaces.
#[derive(Debug, PartialEq)]
pub struct SemanticsSurface {
    pub thetype: String,
    pub parent: Option<u32>,
    pub children: Option<Vec<u32>>,
    pub other: Option<serde_json::Value>,
}

/// What a [`SemanticsSurface`] holds.
pub struct SemanticsSurfaceView {
    pub thetype: Seq<char>,
    pub parent: Option<u32>,
    pub children: Option<Seq<u32>>,
    pub other: Option<serde_json::Value>,
}

impl DeepView for SemanticsSurface {
    type V = SemanticsSurfaceView;

    open spec fn deep_view(&self) -> SemanticsSurfaceView {
        SemanticsSurfaceView {
            thetype: self.thetype@,
            parent: self.parent,
            children: match self.children {
                Some(c) => Some(c@),
                None => None,
            },
            other: self.other,
        }
    }
}

impl View for SemanticsSurface {
    type V = SemanticsSurfaceView;

    open spec fn view(&self) -> SemanticsSurfaceView {
        self.deep_view()
    }
}

impl Clone for SemanticsSurface {
    fn clone(&self) -> (r: Self)
        ensures
            r@ == self@,
    {
        SemanticsSurface {
            thetype: self.thetype.clone(),
            parent: self.parent,
            children: match &self.children {
                Some(c) => Some(c.clone()),
                None => None,
            },
            other: clone_json(&self.other),
        }
    }
}

/// The surface classes of a geometry and the class of each surface.
#[derive(Debug, PartialEq)]
pub struct Semantics {
    pub values: SemanticsValues,
    pub surfaces: Vec<SemanticsSurface>,
}

/// What a [`Semantics`] holds.
pub struct SemanticsView {
    pub values: Tree<Option<u32>>,
    pub surfaces: Seq<SemanticsSurfaceView>,
}

impl DeepView for Semantics {
    type V = SemanticsView;

    open spec fn deep_view(&self) -> SemanticsView {
        SemanticsView { values: self.values@, surfaces: self.surfaces.deep_view() }
    }
}

impl View for Semantics {
    type V = SemanticsView;

    open spec fn view(&self) -> SemanticsView {
        self.deep_view()
    }
}

impl Clone for Semantics {
    fn clone(&self) -> (r: Self)
        ensures
            r@ == self@,
    {
        let surfaces = self.surfaces.clone();
        assert(surfaces.deep_view() =~= self.surfaces.deep_view());
        Semantics { values: self.values.clone(), surfaces }
    }
}

/// The material of a geometry under one theme: one material for the whole
/// geometry, or one for each surface.
#[derive(Debug, PartialEq)]
pub struct MaterialReference {
    pub values: Option<MaterialValues>,
    pub value: Option<usize>,
}

/// What a [`MaterialReference`] holds.
pub struct MaterialReferenceView {
    pub values: Option<Tree<Option<usize>>>,
    pub value: Option<usize>,
}

impl MaterialReferenceView {
    /// The materials referred to, in document order: the one of the whole
    /// geometry if there is one, else those of the surfaces.
    pub open spec fn ids(self) -> Seq<usize> {
        match self.value {
            Some(v) => seq![v],
            None => match self.values {
                Some(t) => t.first_ids(false),
                None => Seq::empty(),
            },
        }
    }

    /// The same reference, each material replaced by what `m` records for it.
    pub open spec fn renumbered(self, m: Pairs) -> MaterialReferenceView {
        match self.value {
            Some(v) => MaterialReferenceView { values: self.values, value: Some(new_of(m, v)) },
            None => match self.values {
                Some(t) => MaterialReferenceView {
                    values: Some(t.replaced(m, Seq::empty(), false)),
                    value: None,
                },
                None => self,
            },
        }
    }
}

impl DeepView for MaterialReference {
    type V = MaterialReferenceView;

    open spec fn deep_view(&self) -> MaterialReferenceView {
        MaterialReferenceView {
            values: match self.values {
                Some(v) => Some(v@),
                None => None,
            },
            value: self.value,
        }
    }
}

impl View for MaterialReference {
    type V = MaterialReferenceView;

    open spec fn view(&self) -> MaterialReferenceView {
        self.deep_view()
    }
}

impl Clone for MaterialReference {
    fn clone(&self) -> (r: Self)
        ensures
            r@ == self@,
    {
        MaterialReference {
            values: match &self.values {
                Some(v) => Some(v.clone()),
                None => None,
            },
            value: self.value,
        }
    }
}

/// A table that grows does not change how a material reference that it
/// covers is renumbered.
pub proof fn lemma_material_reference_stable(r: MaterialReferenceView, a: Pairs, b: Pairs)
    requires
        covers(a, r.ids()),
        extends(a, b),
    ensures
        r.renumbered(a) == r.renumbered(b),
        covers(b, r.ids()),
{
    match r.value {
        Some(v) => {
            assert(r.ids()[0] == v);
            assert(has_old(a, v));
        },
        None => match r.values {
            Some(t) => {
                lemma_replaced_stable(t, false, a, Seq::empty(), b, Seq::empty());
            },
            None => {},
        },
    }
}

impl MaterialReference {
    /// Renumbers the materials referred to through `table`, where a material
    /// seen for the first time gets the next free id.
    pub fn renumber(&mut self, table: &mut IdRemap)
        requires
            old(table).wf(),
        ensures
            final(table).wf(),
            final(table)@ == resolve_all(old(table)@, old(self)@.ids(), 0),
            final(self)@ == old(self)@.renumbered(final(table)@),
    {
        match self.value {
            Some(v) => {
                proof {
                    lemma_resolve_single(table@, v, 0);
                }
                let new = table.resolve(v, 0);
                self.value = Some(new);
            },
            None => {
                match &mut self.values {
                    Some(values) => {
                        let mut unused = IdRemap::new();
                        let ghost t = values@;
                        proof {
                            table.lemma_unique();
                            lemma_resolve_all(table@, t.first_ids(false), 0);
                        }
                        values.renumber_values(table, &mut unused, 0, false);
                        proof {
                            lemma_replaced_stable(t, false, table@, unused@, table@, Seq::empty());
                        }
                    },
                    None => {
                        proof {
                            lemma_resolve_single(table@, 0, 0);
                        }
                    },
                }
            },
        }
    }
}

/// The texture of a geometry under one theme.
#[derive(Debug, PartialEq)]
pub struct TextureReference {
    pub values: TextureValues,
}

/// What a [`TextureReference`] holds.
pub struct TextureReferenceView {
    pub values: Tree<Option<usize>>,
}

impl TextureReferenceView {
    /// The textures referred to, in document order.
    pub open spec fn texture_ids(self) -> Seq<usize> {
        self.values.first_ids(true)
    }

    /// The texture vertices referred to, in document order.
    pub open spec fn texture_vertex_ids(self) -> Seq<usize> {
        self.values.rest_ids(true)
    }

    /// The same reference, each texture replaced by what `t` records for it
    /// and each texture vertex by what `tv` records for it.
    pub open spec fn renumbered(self, t: Pairs, tv: Pairs) -> TextureReferenceView {
        TextureReferenceView { values: self.values.replaced(t, tv, true) }
    }
}

impl DeepView for TextureReference {
    type V = TextureReferenceView;

    open spec fn deep_view(&self) -> TextureReferenceView {
        TextureReferenceView { values: self.values@ }
    }
}

impl View for TextureReference {
    type V = TextureReferenceView;

    open spec fn view(&self) -> TextureReferenceView {
        self.deep_view()
    }
}

impl Clone for TextureReference {
    fn clone(&self) -> (r: Self)
        ensures
            r@ == self@,
    {
        TextureReference { values: self.values.clone() }
    }
}

impl TextureReference {
    /// Renumbers the textures through `t` and the texture vertices through
    /// `tv`, where a new texture vertex gets the id `len + offset`.
    pub fn renumber(&mut self, t: &mut IdRemap, tv: &mut IdRemap, offset: usize)
        requires
            old(t).wf(),
            old(tv).wf(),
            offset == 0 || old(tv)@.len() + old(self)@.texture_vertex_ids().len() + offset
                <= usize::MAX,
        ensures
            final(t).wf(),
            final(tv).wf(),
            final(t)@ == resolve_all(old(t)@, old(self)@.texture_ids(), 0),
            final(tv)@ == resolve_all(old(tv)@, old(self)@.texture_vertex_ids(), offset),
            final(self)@ == old(self)@.renumbered(final(t)@, final(tv)@),
    {
        self.values.renumber_values(t, tv, offset, true);
    }
}

/// The material references of a geometry, one under each theme.
pub type MaterialThemes = Seq<(Seq<char>, MaterialReferenceView)>;

/// The texture references of a geometry, one under each theme.
pub type TextureThemes = Seq<(Seq<char>, TextureReferenceView)>;

/// The materials that one theme refers to, as a value.
pub open spec fn material_ids_fn() -> spec_fn((Seq<char>, MaterialReferenceView)) -> Seq<usize> {
    |e: (Seq<char>, MaterialReferenceView)| e.1.ids()
}

/// The textures that one theme refers to, as a value.
pub open spec fn texture_ids_fn() -> spec_fn((Seq<char>, TextureReferenceView)) -> Seq<usize> {
    |e: (Seq<char>, TextureReferenceView)| e.1.texture_ids()
}

/// The texture vertices that one theme refers to, as a value.
pub open spec fn texture_vertex_ids_fn() -> spec_fn((Seq<char>, TextureReferenceView)) -> Seq<
    usize,
> {
    |e: (Seq<char>, TextureReferenceView)| e.1.texture_vertex_ids()
}

/// The themes, each material reference renumbered through `m`.
pub open spec fn materials_renumbered(themes: MaterialThemes, m: Pairs) -> MaterialThemes {
    Seq::new(themes.len(), |i: int| (themes[i].0, themes[i].1.renumbered(m)))
}

/// The themes, each texture reference renumbered through `t` and `tv`.
pub open spec fn textures_renumbered(themes: TextureThemes, t: Pairs, tv: Pairs) -> TextureThemes {
    Seq::new(themes.len(), |i: int| (themes[i].0, themes[i].1.renumbered(t, tv)))
}

/// A table that grows does not change how material themes that it covers are
/// renumbered.
pub proof fn lemma_materials_stable(themes: MaterialThemes, a: Pairs, b: Pairs)
    requires
        covers(a, gather(themes, material_ids_fn())),
        extends(a, b),
    ensures
        materials_renumbered(themes, a) == materials_renumbered(themes, b),
        covers(b, gather(themes, material_ids_fn())),
{
    let all = gather(themes, material_ids_fn());
    assert forall|i: int| 0 <= i < themes.len() implies themes[i].1.renumbered(a)
        == themes[i].1.renumbered(b) by {
        let r = themes[i].1;
        assert forall|k: int| 0 <= k < r.ids().len() implies has_old(a, #[trigger] r.ids()[k]) by {
            assert(material_ids_fn()(themes[i]) == r.ids());
            lemma_gather_has(themes, material_ids_fn(), i, k);
            let j = choose|j: int| 0 <= j < all.len() && all[j] == r.ids()[k];
            assert(has_old(a, all[j]));
        }
        lemma_material_reference_stable(r, a, b);
    }
    assert(materials_renumbered(themes, a) =~= materials_renumbered(themes, b));
    assert forall|j: int| 0 <= j < all.len() implies has_old(b, #[trigger] all[j]) by {
        assert(has_old(a, all[j]));
    }
}

/// Tables that grow do not change how texture themes that they cover are
/// renumbered.
pub proof fn lemma_textures_stable(
    themes: TextureThemes,
    a: Pairs,
    b: Pairs,
    a2: Pairs,
    b2: Pairs,
)
    requires
        covers(a, gather(themes, texture_ids_fn())),
        covers(b, gather(themes, texture_vertex_ids_fn())),
        extends(a, a2),
        extends(b, b2),
    ensures
        textures_renumbered(themes, a, b) == textures_renumbered(themes, a2, b2),
        covers(a2, gather(themes, texture_ids_fn())),
        covers(b2, gather(themes, texture_vertex_ids_fn())),
{
    let all_t = gather(themes, texture_ids_fn());
    let all_v = gather(themes, texture_vertex_ids_fn());
    assert forall|i: int| 0 <= i < themes.len() implies themes[i].1.renumbered(a, b)
        == themes[i].1.renumbered(a2, b2) by {
        let r = themes[i].1;
        assert forall|k: int| 0 <= k < r.texture_ids().len() implies has_old(
            a,
            #[trigger] r.texture_ids()[k],
        ) by {
            assert(texture_ids_fn()(themes[i]) == r.texture_ids());
            lemma_gather_has(themes, texture_ids_fn(), i, k);
            let j = choose|j: int| 0 <= j < all_t.len() && all_t[j] == r.texture_ids()[k];
            assert(has_old(a, all_t[j]));
        }
        assert forall|k: int| 0 <= k < r.texture_vertex_ids().len() implies has_old(
            b,
            #[trigger] r.texture_vertex_ids()[k],
        ) by {
            assert(texture_vertex_ids_fn()(themes[i]) == r.texture_vertex_ids());
            lemma_gather_has(themes, texture_vertex_ids_fn(), i, k);
            let j = choose|j: int| 0 <= j < all_v.len() && all_v[j] == r.texture_vertex_ids()[k];
            assert(has_old(b, all_v[j]));
        }
        lemma_replaced_stable(r.values, true, a, b, a2, b2);
    }
    assert(textures_renumbered(themes, a, b) =~= textures_renumbered(themes, a2, b2));
    assert forall|j: int| 0 <= j < all_t.len() implies has_old(a2, #[trigger] all_t[j]) by {
        assert(has_old(a, all_t[j]));
    }
    assert forall|j: int| 0 <= j < all_v.len() implies has_old(b2, #[trigger] all_v[j]) by {
        assert(has_old(b, all_v[j]));
    }
}

/// Renumbers the material references of every theme, in order.
fn renumber_material_themes(themes: &mut NameMap<MaterialReference>, table: &mut IdRemap)
    requires
        old(table).wf(),
    ensures
        final(table).wf(),
        final(table)@ == resolve_all(
            old(table)@,
            gather(old(themes).deep_view(), material_ids_fn()),
            0,
        ),
        final(themes).deep_view() == materials_renumbered(old(themes).deep_view(), final(table)@),
{
    let n = themes.entries.len();
    let ghost v0 = old(themes).deep_view();
    let ghost t0 = table@;
    let ghost g = material_ids_fn();
    let mut i: usize = 0;
    proof {
        table.lemma_unique();
        assert(v0.take(0) =~= Seq::<(Seq<char>, MaterialReferenceView)>::empty());
    }
    while i < n
        invariant
            i <= n,
            n == old(themes).entries@.len(),
            themes.entries@.len() == n,
            v0 == old(themes).deep_view(),
            g == material_ids_fn(),
            t0 == old(table)@,
            keys_unique(t0),
            table.wf(),
            table@ == resolve_all(t0, gather(v0.take(i as int), g), 0),
            forall|j: int| i <= j < n ==> themes.entries@[j] == old(themes).entries@[j],
            forall|j: int|
                0 <= j < i ==> (#[trigger] themes.entries@[j]).0 == old(themes).entries@[j].0
                    && themes.entries@[j].1@ == v0[j].1.renumbered(table@) && covers(
                    table@,
                    v0[j].1.ids(),
                ),
        decreases n - i,
    {
        let ghost before = table@;
        proof {
            table.lemma_unique();
            lemma_gather_take(v0, g, i as int);
            assert(g(v0[i as int]) == v0[i as int].1.ids());
        }
        themes.entries[i].1.renumber(table);
        proof {
            lemma_resolve_all(before, v0[i as int].1.ids(), 0);
            lemma_resolve_all_concat(t0, gather(v0.take(i as int), g), v0[i as int].1.ids(), 0);
            assert forall|j: int| 0 <= j < i + 1 implies (#[trigger] themes.entries@[j]).0 == old(
                themes,
            ).entries@[j].0 && themes.entries@[j].1@ == v0[j].1.renumbered(table@) && covers(
                table@,
                v0[j].1.ids(),
            ) by {
                if j < i {
                    lemma_material_reference_stable(v0[j].1, before, table@);
                }
            }
        }
        i += 1;
    }
    proof {
        assert(v0.take(n as int) =~= v0);
        assert(themes.deep_view() =~= materials_renumbered(v0, table@));
    }
}

/// Renumbers the texture references of every theme, in order.
fn renumber_texture_themes(
    themes: &mut NameMap<TextureReference>,
    t: &mut IdRemap,
    tv: &mut IdRemap,
    offset: usize,
)
    requires
        old(t).wf(),
        old(tv).wf(),
        offset == 0 || old(tv)@.len() + gather(old(themes).deep_view(), texture_vertex_ids_fn()).len()
            + offset <= usize::MAX,
    ensures
        final(t).wf(),
        final(tv).wf(),
        final(t)@ == resolve_all(old(t)@, gather(old(themes).deep_view(), texture_ids_fn()), 0),
        final(tv)@ == resolve_all(
            old(tv)@,
            gather(old(themes).deep_view(), texture_vertex_ids_fn()),
            offset,
        ),
        final(themes).deep_view() == textures_renumbered(
            old(themes).deep_view(),
            final(t)@,
            final(tv)@,
        ),
{
    let n = themes.entries.len();
    let ghost v0 = old(themes).deep_view();
    let ghost t0 = t@;
    let ghost tv0 = tv@;
    let ghost gt = texture_ids_fn();
    let ghost gv = texture_vertex_ids_fn();
    let mut i: usize = 0;
    proof {
        t.lemma_unique();
        tv.lemma_unique();
        assert(v0.take(0) =~= Seq::<(Seq<char>, TextureReferenceView)>::empty());
    }
    while i < n
        invariant
            i <= n,
            n == old(themes).entries@.len(),
            themes.entries@.len() == n,
            v0 == old(themes).deep_view(),
            gt == texture_ids_fn(),
            gv == texture_vertex_ids_fn(),
            t0 == old(t)@,
            tv0 == old(tv)@,
            keys_unique(t0),
            keys_unique(tv0),
            t.wf(),
            tv.wf(),
            offset == 0 || tv0.len() + gather(v0, gv).len() + offset <= usize::MAX,
            t@ == resolve_all(t0, gather(v0.take(i as int), gt), 0),
            tv@ == resolve_all(tv0, gather(v0.take(i as int), gv), offset),
            tv@.len() <= tv0.len() + gather(v0.take(i as int), gv).len(),
            forall|j: int| i <= j < n ==> themes.entries@[j] == old(themes).entries@[j],
            forall|j: int|
                0 <= j < i ==> (#[trigger] themes.entries@[j]).0 == old(themes).entries@[j].0
                    && themes.entries@[j].1@ == v0[j].1.renumbered(t@, tv@) && covers(
                    t@,
                    v0[j].1.texture_ids(),
                ) && covers(tv@, v0[j].1.texture_vertex_ids()),
        decreases n - i,
    {
        let ghost tb = t@;
        let ghost tvb = tv@;
        let ghost r = v0[i as int].1;
        proof {
            t.lemma_unique();
            tv.lemma_unique();
            lemma_gather_take(v0, gt, i as int);
            lemma_gather_take(v0, gv, i as int);
            lemma_gather_take_len(v0, gv, i + 1);
            assert(gt(v0[i as int]) == r.texture_ids());
            assert(gv(v0[i as int]) == r.texture_vertex_ids());
        }
        themes.entries[i].1.renumber(t, tv, offset);
        proof {
            lemma_resolve_all(tv0, gather(v0.take(i as int), gv), offset);
            lemma_resolve_all(tb, r.texture_ids(), 0);
            lemma_resolve_all(tvb, r.texture_vertex_ids(), offset);
            lemma_resolve_all_concat(t0, gather(v0.take(i as int), gt), r.texture_ids(), 0);
            lemma_resolve_all_concat(
                tv0,
                gather(v0.take(i as int), gv),
                r.texture_vertex_ids(),
                offset,
            );
            assert forall|j: int| 0 <= j < i + 1 implies (#[trigger] themes.entries@[j]).0 == old(
                themes,
            ).entries@[j].0 && themes.entries@[j].1@ == v0[j].1.renumbered(t@, tv@) && covers(
                t@,
                v0[j].1.texture_ids(),
            ) && covers(tv@, v0[j].1.texture_vertex_ids()) by {
                if j < i {
                    lemma_replaced_stable(v0[j].1.values, true, tb, tvb, t@, tv@);
                }
            }
        }
        i += 1;
    }
    proof {
        assert(v0.take(n as int) =~= v0);
        assert(themes.deep_view() =~= textures_renumbered(v0, t@, tv@));
    }
}

/// One geometry.
#[derive(Debug, PartialEq)]
pub struct Geometry {
    pub thetype: GeometryType,
    pub lod: Option<String>,
    pub boundaries: NestedArray<u32>,
    pub semantics: Option<Semantics>,
    pub material: Option<NameMap<MaterialReference>>,
    pub texture: Option<NameMap<TextureReference>>,
    pub template: Option<usize>,
    pub transformation_matrix: Option<[Scalar; 16]>,
}

/// What a [`Geometry`] holds.
pub struct GeometryView {
    pub thetype: GeometryType,
    pub lod: Option<Seq<char>>,
    pub boundaries: Tree<u32>,
    pub semantics: Option<SemanticsView>,
    pub material: Option<MaterialThemes>,
    pub texture: Option<TextureThemes>,
    pub template: Option<usize>,
    pub transformation_matrix: Option<[Scalar; 16]>,
}

impl DeepView for Geometry {
    type V = GeometryView;

    open spec fn deep_view(&self) -> GeometryView {
        GeometryView {
            thetype: self.thetype,
            lod: match self.lod {
                Some(l) => Some(l@),
                None => None,
            },
            boundaries: self.boundaries@,
            semantics: match self.semantics {
                Some(x) => Some(x@),
                None => None,
            },
            material: match self.material {
                Some(m) => Some(m.deep_view()),
                None => None,
            },
            texture: match self.texture {
                Some(t) => Some(t.deep_view()),
                None => None,
            },
            template: self.template,
            transformation_matrix: self.transformation_matrix,
        }
    }
}

impl View for Geometry {
    type V = GeometryView;

    open spec fn view(&self) -> GeometryView {
        self.deep_view()
    }
}

impl Clone for Geometry {
    fn clone(&self) -> (r: Self)
        ensures
            r@ == self@,
    {
        let material = match &self.material {
            Some(m) => {
                let c = m.clone();
                assert(c.deep_view() =~= m.deep_view());
                Some(c)
            },
            None => None,
        };
        let texture = match &self.texture {
            Some(t) => {
                let c = t.clone();
                assert(c.deep_view() =~= t.deep_view());
                Some(c)
            },
            None => None,
        };
        Geometry {
            thetype: self.thetype,
            lod: match &self.lod {
                Some(l) => Some(l.clone()),
                None => None,
            },
            boundaries: self.boundaries.clone(),
            semantics: match &self.semantics {
                Some(x) => Some(x.clone()),
                None => None,
            },
            material,
            texture,
            template: self.template,
            transformation_matrix: self.transformation_matrix,
        }
    }
}

impl GeometryView {
    /// The materials referred to, theme after theme.
    pub open spec fn material_ids(self) -> Seq<usize> {
        match self.material {
            Some(m) => gather(m, material_ids_fn()),
            None => Seq::empty(),
        }
    }

    /// The textures referred to, theme after theme.
    pub open spec fn texture_ids(self) -> Seq<usize> {
        match self.texture {
            Some(t) => gather(t, texture_ids_fn()),
            None => Seq::empty(),
        }
    }

    /// The texture vertices referred to, theme after theme.
    pub open spec fn texture_vertex_ids(self) -> Seq<usize> {
        match self.texture {
            Some(t) => gather(t, texture_vertex_ids_fn()),
            None => Seq::empty(),
        }
    }

    /// Everything that the geometry refers to.
    pub open spec fn ids(self) -> Ids {
        Ids {
            vertices: self.boundaries.vertex_ids(),
            materials: self.material_ids(),
            textures: self.texture_ids(),
            texture_vertices: self.texture_vertex_ids(),
        }
    }

    /// Whether the boundary nests as deep as the type of the geometry asks.
    pub open spec fn well_nested(self) -> bool {
        match self.thetype.depth() {
            Some(d) => self.boundaries.depth_is(d),
            None => true,
        }
    }

    /// What a transfer under `plan` resolves.
    pub open spec fn needs(self, plan: Plan) -> Ids {
        self.ids().under(plan)
    }

    /// Whether the boundary can be shifted, where `plan` shifts it: every
    /// index plus the shift is an index still.
    pub open spec fn fits(self, plan: Plan) -> bool {
        match plan.boundaries {
            Motion::Shift(k) => self.boundaries.below(u32::MAX + 1 - k),
            _ => true,
        }
    }

    /// The same geometry with the boundary `b`.
    pub open spec fn with_boundaries(self, b: Tree<u32>) -> GeometryView {
        GeometryView { boundaries: b, ..self }
    }

    /// The same geometry, each material replaced by what `m` records for it.
    pub open spec fn with_materials(self, m: Pairs) -> GeometryView {
        GeometryView {
            material: match self.material {
                Some(themes) => Some(materials_renumbered(themes, m)),
                None => None,
            },
            ..self
        }
    }

    /// The same geometry, each texture replaced by what `t` records for it
    /// and each texture vertex by what `tv` records for it.
    pub open spec fn with_textures(self, t: Pairs, tv: Pairs) -> GeometryView {
        GeometryView {
            texture: match self.texture {
                Some(themes) => Some(textures_renumbered(themes, t, tv)),
                None => None,
            },
            ..self
        }
    }

    /// The boundary after a transfer: kept, shifted, or renumbered through
    /// `v`.
    pub open spec fn moved(self, motion: Motion, v: Pairs) -> Tree<u32> {
        match motion {
            Motion::Keep => self.boundaries,
            Motion::Shift(k) => self.boundaries.shifted(k as int),
            Motion::Renumber => self.boundaries.renumbered(v),
        }
    }

    /// The geometry, transferred into another numbering under `plan`: the
    /// boundary moved as the plan says; and, if the plan says so, materials,
    /// textures and texture vertices renumbered through their tables.
    pub open spec fn transferred(self, plan: Plan, t: TablesView) -> GeometryView {
        let g = self.with_boundaries(self.moved(plan.boundaries, t.vertices));
        if plan.appearance {
            g.with_materials(t.materials).with_textures(t.textures, t.texture_vertices)
        } else {
            g
        }
    }
}

/// Tables that grow do not change how a geometry that they cover is
/// transferred.
pub proof fn lemma_geometry_stable(g: GeometryView, plan: Plan, a: TablesView, b: TablesView)
    requires
        a.covers(g.needs(plan)),
        a.extends(b),
    ensures
        g.transferred(plan, a) == g.transferred(plan, b),
        b.covers(g.needs(plan)),
{
    if plan.boundaries is Renumber {
        lemma_renumbered_stable(g.boundaries, a.vertices, b.vertices);
    }
    if plan.appearance {
        match g.material {
            Some(m) => {
                lemma_materials_stable(m, a.materials, b.materials);
            },
            None => {},
        }
        match g.texture {
            Some(t) => {
                lemma_textures_stable(
                    t,
                    a.textures,
                    a.texture_vertices,
                    b.textures,
                    b.texture_vertices,
                );
            },
            None => {},
        }
    }
}

impl Geometry {
    /// Renumbers the vertex indices of the boundary through `violdnew`, in
    /// document order; an index seen for the first time gets the next free
    /// id.
    pub fn update_geometry_boundaries(&mut self, violdnew: &mut IdRemap)
        requires
            old(violdnew).wf(),
        ensures
            final(violdnew).wf(),
            final(violdnew)@ == resolve_all(old(violdnew)@, old(self)@.boundaries.vertex_ids(), 0),
            final(self)@ == old(self)@.with_boundaries(
                old(self)@.boundaries.renumbered(final(violdnew)@),
            ),
    {
        self.boundaries.update_indices_recursively(violdnew);
    }

    /// Adds `offset` to every vertex index of the boundary.
    pub fn offset_geometry_boundaries(&mut self, offset: usize)
        requires
            old(self)@.boundaries.below(u32::MAX + 1 - offset),
        ensures
            final(self)@ == old(self)@.with_boundaries(old(self)@.boundaries.shifted(offset as int)),
    {
        self.boundaries.offset_geometry_boundaries(offset);
    }

    /// Renumbers the materials referred to through `m_oldnew`, theme after
    /// theme; a material seen for the first time gets the next free id.
    pub fn update_material(&mut self, m_oldnew: &mut IdRemap)
        requires
            old(m_oldnew).wf(),
        ensures
            final(m_oldnew).wf(),
            final(m_oldnew)@ == resolve_all(old(m_oldnew)@, old(self)@.material_ids(), 0),
            final(self)@ == old(self)@.with_materials(final(m_oldnew)@),
    {
        match &mut self.material {
            Some(themes) => {
                renumber_material_themes(themes, m_oldnew);
            },
            None => {
                proof {
                    lemma_resolve_single(m_oldnew@, 0, 0);
                }
            },
        }
    }

    /// Renumbers the textures referred to through `t_oldnew` and the texture
    /// vertices through `t_v_oldnew`, theme after theme. A texture seen for
    /// the first time gets the next free id; a texture vertex seen for the
    /// first time gets the id `len + offset`.
    pub fn update_texture(&mut self, t_oldnew: &mut IdRemap, t_v_oldnew: &mut IdRemap, offset: usize)
        requires
            old(t_oldnew).wf(),
            old(t_v_oldnew).wf(),
            offset == 0 || old(t_v_oldnew)@.len() + old(self)@.texture_vertex_ids().len() + offset
                <= usize::MAX,
        ensures
            final(t_oldnew).wf(),
            final(t_v_oldnew).wf(),
            final(t_oldnew)@ == resolve_all(old(t_oldnew)@, old(self)@.texture_ids(), 0),
            final(t_v_oldnew)@ == resolve_all(
                old(t_v_oldnew)@,
                old(self)@.texture_vertex_ids(),
                offset,
            ),
            final(self)@ == old(self)@.with_textures(final(t_oldnew)@, final(t_v_oldnew)@),
    {
        match &mut self.texture {
            Some(themes) => {
                renumber_texture_themes(themes, t_oldnew, t_v_oldnew, offset);
            },
            None => {
                proof {
                    lemma_resolve_single(t_oldnew@, 0, 0);
                    lemma_resolve_single(t_v_oldnew@, 0, offset);
                }
            },
        }
    }

    /// Transfers the geometry into another numbering under `plan`: the
    /// boundary is kept, shifted or renumbered through the vertex table;
    /// then, if the plan says so, the materials, and then the textures and
    /// texture vertices, are renumbered through their tables.
    pub fn transfer(&mut self, plan: Plan, tables: &mut Tables, uv_offset: usize)
        requires
            old(tables).wf(),
            old(self)@.fits(plan),
            old(tables)@.room(old(self)@.needs(plan), uv_offset),
        ensures
            final(tables).wf(),
            final(tables)@ == old(tables)@.resolved(old(self)@.needs(plan), uv_offset),
            final(self)@ == old(self)@.transferred(plan, final(tables)@),
    {
        proof {
            lemma_resolve_single(tables.vertices@, 0, 0);
            lemma_resolve_single(tables.materials@, 0, 0);
            lemma_resolve_single(tables.textures@, 0, 0);
            lemma_resolve_single(tables.texture_vertices@, 0, uv_offset);
        }
        match plan.boundaries {
            Motion::Keep => {},
            Motion::Shift(k) => {
                self.offset_geometry_boundaries(k);
            },
            Motion::Renumber => {
                self.update_geometry_boundaries(&mut tables.vertices);
            },
        }
        if plan.appearance {
            self.update_material(&mut tables.materials);
            self.update_texture(&mut tables.textures, &mut tables.texture_vertices, uv_offset);
        }
    }
}

/// What a transfer of the geometries under `plan` resolves, geometry after
/// geometry.
pub open spec fn geometries_need(gs: Seq<GeometryView>, plan: Plan) -> Ids
    decreases gs.len(),
{
    if gs.len() == 0 {
        Ids::none()
    } else {
        geometries_need(gs.drop_last(), plan).plus(gs.last().needs(plan))
    }
}

/// Whether the boundary of each geometry can be shifted, where `plan`
/// shifts it.
pub open spec fn geometries_fit(gs: Seq<GeometryView>, plan: Plan) -> bool {
    forall|i: int| 0 <= i < gs.len() ==> (#[trigger] gs[i]).fits(plan)
}

/// The geometries, each transferred.
pub open spec fn geometries_transferred(
    gs: Seq<GeometryView>,
    plan: Plan,
    t: TablesView,
) -> Seq<GeometryView> {
    Seq::new(gs.len(), |i: int| gs[i].transferred(plan, t))
}

/// One geometry more needs what the others need, then what it needs itself.
pub proof fn lemma_geometries_need_take(gs: Seq<GeometryView>, plan: Plan, i: int)
    requires
        0 <= i < gs.len(),
    ensures
        geometries_need(gs.take(i + 1), plan) == geometries_need(gs.take(i), plan).plus(
            gs[i].needs(plan),
        ),
{
    assert(gs.take(i + 1).drop_last() =~= gs.take(i));
}

/// A prefix needs no more texture vertices than the whole.
pub proof fn lemma_geometries_need_len(gs: Seq<GeometryView>, plan: Plan, i: int)
    requires
        0 <= i <= gs.len(),
    ensures
        geometries_need(gs.take(i), plan).texture_vertices.len() <= geometries_need(
            gs,
            plan,
        ).texture_vertices.len(),
    decreases gs.len() - i,
{
    if i < gs.len() {
        lemma_geometries_need_take(gs, plan, i);
        lemma_geometries_need_len(gs, plan, i + 1);
    } else {
        assert(gs.take(i) =~= gs);
    }
}

/// What one of the geometries needs is covered by tables that cover what
/// all of them need.
pub proof fn lemma_geometries_need_covers(
    gs: Seq<GeometryView>,
    plan: Plan,
    t: TablesView,
    i: int,
)
    requires
        0 <= i < gs.len(),
        t.covers(geometries_need(gs, plan)),
    ensures
        t.covers(gs[i].needs(plan)),
    decreases gs.len(),
{
    let front = geometries_need(gs.drop_last(), plan);
    let last = gs.last().needs(plan);
    let all = geometries_need(gs, plan);
    if i == gs.len() - 1 {
        assert forall|k: int| 0 <= k < last.vertices.len() implies has_old(
            t.vertices,
            #[trigger] last.vertices[k],
        ) by {
            assert(all.vertices[front.vertices.len() + k] == last.vertices[k]);
        }
        assert forall|k: int| 0 <= k < last.materials.len() implies has_old(
            t.materials,
            #[trigger] last.materials[k],
        ) by {
            assert(all.materials[front.materials.len() + k] == last.materials[k]);
        }
        assert forall|k: int| 0 <= k < last.textures.len() implies has_old(
            t.textures,
            #[trigger] last.textures[k],
        ) by {
            assert(all.textures[front.textures.len() + k] == last.textures[k]);
        }
        assert forall|k: int| 0 <= k < last.texture_vertices.len() implies has_old(
            t.texture_vertices,
            #[trigger] last.texture_vertices[k],
        ) by {
            assert(all.texture_vertices[front.texture_vertices.len() + k]
                == last.texture_vertices[k]);
        }
    } else {
        assert forall|k: int| 0 <= k < front.vertices.len() implies has_old(
            t.vertices,
            #[trigger] front.vertices[k],
        ) by {
            assert(all.vertices[k] == front.vertices[k]);
        }
        assert forall|k: int| 0 <= k < front.materials.len() implies has_old(
            t.materials,
            #[trigger] front.materials[k],
        ) by {
            assert(all.materials[k] == front.materials[k]);
        }
        assert forall|k: int| 0 <= k < front.textures.len() implies has_old(
            t.textures,
            #[trigger] front.textures[k],
        ) by {
            assert(all.textures[k] == front.textures[k]);
        }
        assert forall|k: int| 0 <= k < front.texture_vertices.len() implies has_old(
            t.texture_vertices,
            #[trigger] front.texture_vertices[k],
        ) by {
            assert(all.texture_vertices[k] == front.texture_vertices[k]);
        }
        lemma_geometries_need_covers(gs.drop_last(), plan, t, i);
    }
}

/// Tables that grow do not change how geometries that they cover are
/// transferred.
pub proof fn lemma_geometries_stable(
    gs: Seq<GeometryView>,
    plan: Plan,
    a: TablesView,
    b: TablesView,
)
    requires
        a.covers(geometries_need(gs, plan)),
        a.extends(b),
    ensures
        geometries_transferred(gs, plan, a) == geometries_transferred(gs, plan, b),
        b.covers(geometries_need(gs, plan)),
{
    assert forall|i: int| 0 <= i < gs.len() implies gs[i].transferred(plan, a)
        == gs[i].transferred(plan, b) by {
        lemma_geometries_need_covers(gs, plan, a, i);
        lemma_geometry_stable(gs[i], plan, a, b);
    }
    assert(geometries_transferred(gs, plan, a) =~= geometries_transferred(gs, plan, b));
    crate::tables::lemma_covers_extends(a, b, geometries_need(gs, plan));
}

/// Transfers each geometry, in order.
pub fn transfer_geometries(
    gs: &mut Vec<Geometry>,
    plan: Plan,
    tables: &mut Tables,
    uv_offset: usize,
)
    requires
        old(tables).wf(),
        geometries_fit(old(gs).deep_view(), plan),
        old(tables)@.room(geometries_need(old(gs).deep_view(), plan), uv_offset),
    ensures
        final(tables).wf(),
        final(tables)@ == old(tables)@.resolved(
            geometries_need(old(gs).deep_view(), plan),
            uv_offset,
        ),
        final(gs).deep_view() == geometries_transferred(
            old(gs).deep_view(),
            plan,
            final(tables)@,
        ),
{
    let n = gs.len();
    let ghost v0 = old(gs).deep_view();
    let ghost t0 = tables@;
    let mut i: usize = 0;
    proof {
        tables.lemma_unique();
        assert(v0.take(0) =~= Seq::<GeometryView>::empty());
        crate::tables::lemma_resolved_none(t0, uv_offset);
    }
    while i < n
        invariant
            i <= n,
            n == old(gs)@.len(),
            gs@.len() == n,
            v0 == old(gs).deep_view(),
            t0 == old(tables)@,
            t0.unique(),
            tables.wf(),
            geometries_fit(v0, plan),
            t0.room(geometries_need(v0, plan), uv_offset),
            tables@ == t0.resolved(geometries_need(v0.take(i as int), plan), uv_offset),
            forall|j: int| i <= j < n ==> gs@[j] == old(gs)@[j],
            forall|j: int|
                0 <= j < i ==> (#[trigger] gs@[j])@ == v0[j].transferred(plan, tables@)
                    && tables@.covers(v0[j].needs(plan)),
        decreases n - i,
    {
        let ghost before = tables@;
        let ghost g = v0[i as int];
        proof {
            tables.lemma_unique();
            lemma_geometries_need_take(v0, plan, i as int);
            lemma_geometries_need_len(v0, plan, i + 1);
            lemma_resolved(t0, geometries_need(v0.take(i as int), plan), uv_offset);
            assert(gs@[i as int]@ == g);
            assert(g.fits(plan));
        }
        gs[i].transfer(plan, tables, uv_offset);
        proof {
            lemma_resolved(before, g.needs(plan), uv_offset);
            crate::tables::lemma_resolved_plus(
                t0,
                geometries_need(v0.take(i as int), plan),
                g.needs(plan),
                uv_offset,
            );
            assert forall|j: int| 0 <= j < i + 1 implies (#[trigger] gs@[j])@ == v0[j].transferred(
                plan,
                tables@,
            ) && tables@.covers(v0[j].needs(plan)) by {
                if j < i {
                    lemma_geometry_stable(v0[j], plan, before, tables@);
                }
            }
        }
        i += 1;
    }
    proof {
        assert(v0.take(n as int) =~= v0);
        assert(gs.deep_view() =~= geometries_transferred(v0, plan, tables@));
    }
}

/// Whether every vertex index of every geometry is below `bound`.
pub open spec fn geometries_below(gs: Seq<GeometryView>, bound: int) -> bool {
    forall|i: int| 0 <= i < gs.len() ==> (#[trigger] gs[i]).boundaries.below(bound)
}

/// Geometries whose vertex indices are all below `bound` need no vertex
/// index that is not.
pub proof fn lemma_geometries_need_below(gs: Seq<GeometryView>, plan: Plan, bound: int)
    requires
        geometries_below(gs, bound),
    ensures
        crate::remap::ids_below(geometries_need(gs, plan).vertices, bound),
    decreases gs.len(),
{
    if gs.len() > 0 {
        let front = gs.drop_last();
        assert forall|i: int| 0 <= i < front.len() implies (#[trigger] front[i]).boundaries.below(
            bound,
        ) by {
            assert(front[i] == gs[i]);
        }
        lemma_geometries_need_below(front, plan, bound);
        let a = geometries_need(front, plan).vertices;
        let b = gs.last().needs(plan).vertices;
        assert(gs.last() == gs[gs.len() - 1]);
        assert(gs.last().boundaries.below(bound));
        assert forall|k: int| 0 <= k < (a + b).len() implies #[trigger] (a + b)[k] < bound by {
            if k >= a.len() {
                assert(b[k - a.len()] == gs.last().boundaries.vertex_ids()[k - a.len()]);
            }
        }
    }
}

impl Geometry {
    /// Tells whether the boundary nests as deep as the type of the geometry
    /// asks; of an instance nothing is asked.
    pub fn is_well_nested(&self) -> (b: bool)
        ensures
            b == self@.well_nested(),
    {
        match self.thetype.boundary_depth() {
            Some(d) => self.boundaries.has_depth(d),
            None => true,
        }
    }

    /// Counts the texture vertices that the geometry refers to; the count is
    /// capped at the greatest number that the machine counts to.
    pub fn uv_count(&self) -> (c: usize)
        ensures
            c == capped(self@.texture_vertex_ids().len() as int),
    {
        match &self.texture {
            Some(themes) => {
                let n = themes.entries.len();
                let ghost v = themes.deep_view();
                let ghost g = texture_vertex_ids_fn();
                let mut c: usize = 0;
                let mut i: usize = 0;
                assert(v.take(0) =~= Seq::<(Seq<char>, TextureReferenceView)>::empty());
                while i < n
                    invariant
                        i <= n,
                        n == themes.entries@.len(),
                        v == themes.deep_view(),
                        g == texture_vertex_ids_fn(),
                        c == capped(gather(v.take(i as int), g).len() as int),
                    decreases n - i,
                {
                    proof {
                        lemma_gather_take(v, g, i as int);
                        assert(g(v[i as int]) == v[i as int].1.texture_vertex_ids());
                    }
                    let more = themes.entries[i].1.values.rest_count(true);
                    c = add_capped(c, more);
                    i += 1;
                }
                assert(v.take(n as int) =~= v);
                c
            },
            None => 0,
        }
    }

    /// Tells whether the boundary can be shifted, where `plan` shifts it.
    pub fn fits(&self, plan: Plan) -> (b: bool)
        ensures
            b == self@.fits(plan),
    {
        match plan.boundaries {
            Motion::Shift(k) => {
                if k as u64 <= u32::MAX as u64 + 1 {
                    self.boundaries.is_below(u32::MAX as u64 + 1 - k as u64)
                } else {
                    let b = self.boundaries.is_below(0);
                    proof {
                        let t = self@.boundaries;
                        if b {
                            assert forall|i: int| 0 <= i < t.vertex_ids().len() implies #[trigger] t.vertex_ids()[i]
                                < u32::MAX + 1 - k by {
                                assert(t.vertex_ids()[i] < 0);
                            }
                        } else {
                            let i = choose|i: int|
                                0 <= i < t.vertex_ids().len() && !(#[trigger] t.vertex_ids()[i] < 0);
                            assert(!(t.vertex_ids()[i] < u32::MAX + 1 - k));
                        }
                    }
                    b
                }
            },
            _ => true,
        }
    }
}

/// Tells whether the boundary of each geometry can be shifted, where `plan`
/// shifts it, and counts the texture vertices that a transfer under `plan`
/// resolves; the count is capped.
pub fn survey_geometries(gs: &Vec<Geometry>, plan: Plan) -> (r: (bool, usize))
    ensures
        r.0 == geometries_fit(gs.deep_view(), plan),
        r.0 ==> r.1 == capped(geometries_need(gs.deep_view(), plan).texture_vertices.len() as int),
{
    let n = gs.len();
    let ghost v = gs.deep_view();
    let mut c: usize = 0;
    let mut i: usize = 0;
    assert(v.take(0) =~= Seq::<GeometryView>::empty());
    while i < n
        invariant
            i <= n,
            n == gs@.len(),
            v == gs.deep_view(),
            forall|j: int| 0 <= j < i ==> (#[trigger] v[j]).fits(plan),
            c == capped(geometries_need(v.take(i as int), plan).texture_vertices.len() as int),
        decreases n - i,
    {
        proof {
            lemma_geometries_need_take(v, plan, i as int);
            assert(v[i as int] == gs@[i as int]@);
        }
        if !gs[i].fits(plan) {
            return (false, 0);
        }
        if plan.appearance {
            let more = gs[i].uv_count();
            c = add_capped(c, more);
        }
        i += 1;
    }
    assert(v.take(n as int) =~= v);
    (true, c)
}

/// A transfer leaves the boundary of a geometry nested as deep as it was.
pub proof fn law_transfer_keeps_depth(g: GeometryView, plan: Plan, t: TablesView)
    ensures
        g.transferred(plan, t).well_nested() == g.well_nested(),
        g.transferred(plan, t).thetype == g.thetype,
{
    match g.thetype.depth() {
        Some(d) => {
            match plan.boundaries {
                Motion::Keep => {},
                Motion::Shift(k) => {
                    crate::nested::lemma_rewrite_depth(
                        g.boundaries,
                        crate::nested::shifted_fn(k as int),
                        d,
                    );
                },
                Motion::Renumber => {
                    crate::nested::lemma_rewrite_depth(
                        g.boundaries,
                        crate::nested::renumbered_fn(t.vertices),
                        d,
                    );
                },
            }
        },
        None => {},
    }
}

/// The materials that a renumbered reference refers to are those that the
/// reference referred to, each renumbered.
pub proof fn lemma_material_reference_ids(r: MaterialReferenceView, m: Pairs)
    ensures
        r.renumbered(m).ids() == r.ids().map_values(crate::remap::new_of_fn(m)),
{
    match r.value {
        Some(v) => {
            assert(r.renumbered(m).ids() =~= r.ids().map_values(crate::remap::new_of_fn(m)));
        },
        None => match r.values {
            Some(t) => {
                crate::values::lemma_tree_ids_replaced(t, m, Seq::empty(), false);
            },
            None => {
                assert(r.renumbered(m).ids() =~= r.ids().map_values(crate::remap::new_of_fn(m)));
            },
        },
    }
}

/// What a transferred geometry refers to in the appearance is what the
/// geometry referred to, each reference renumbered if the plan says so.
pub proof fn lemma_geometry_ids(g: GeometryView, plan: Plan, t: TablesView)
    ensures
        g.transferred(plan, t).ids().appearance() == if plan.appearance {
            g.ids().through(t)
        } else {
            g.ids().appearance()
        },
{
    if plan.appearance {
        let g2 = g.transferred(plan, t);
        match g.material {
            Some(themes) => {
                let themes2 = materials_renumbered(themes, t.materials);
                assert forall|k: int| 0 <= k < themes.len() implies material_ids_fn()(
                    #[trigger] themes2[k],
                ) == material_ids_fn()(themes[k]).map_values(
                    crate::remap::new_of_fn(t.materials),
                ) by {
                    lemma_material_reference_ids(themes[k].1, t.materials);
                }
                crate::nested::lemma_gather_map(
                    themes,
                    themes2,
                    material_ids_fn(),
                    crate::remap::new_of_fn(t.materials),
                );
            },
            None => {
                assert(Seq::<usize>::empty().map_values(crate::remap::new_of_fn(t.materials))
                    =~= Seq::<usize>::empty());
            },
        }
        match g.texture {
            Some(themes) => {
                let themes2 = textures_renumbered(themes, t.textures, t.texture_vertices);
                assert forall|k: int| 0 <= k < themes.len() implies texture_ids_fn()(
                    #[trigger] themes2[k],
                ) == texture_ids_fn()(themes[k]).map_values(crate::remap::new_of_fn(t.textures))
                    && texture_vertex_ids_fn()(themes2[k]) == texture_vertex_ids_fn()(
                    themes[k],
                ).map_values(crate::remap::new_of_fn(t.texture_vertices)) by {
                    crate::values::lemma_tree_ids_replaced(
                        themes[k].1.values,
                        t.textures,
                        t.texture_vertices,
                        true,
                    );
                }
                crate::nested::lemma_gather_map(
                    themes,
                    themes2,
                    texture_ids_fn(),
                    crate::remap::new_of_fn(t.textures),
                );
                crate::nested::lemma_gather_map(
                    themes,
                    themes2,
                    texture_vertex_ids_fn(),
                    crate::remap::new_of_fn(t.texture_vertices),
                );
            },
            None => {
                assert(Seq::<usize>::empty().map_values(crate::remap::new_of_fn(t.textures))
                    =~= Seq::<usize>::empty());
                assert(Seq::<usize>::empty().map_values(
                    crate::remap::new_of_fn(t.texture_vertices),
                ) =~= Seq::<usize>::empty());
            },
        }
    }
}

/// What transferred geometries refer to in the appearance is what the
/// geometries referred to, each reference renumbered if the plan says so.
pub proof fn lemma_geometries_ids(gs: Seq<GeometryView>, plan: Plan, t: TablesView)
    ensures
        geometries_need(geometries_transferred(gs, plan, t), Plan::split()).appearance()
            == if plan.appearance {
            geometries_need(gs, Plan::split()).through(t)
        } else {
            geometries_need(gs, Plan::split()).appearance()
        },
    decreases gs.len(),
{
    let all = Plan::split();
    let gs2 = geometries_transferred(gs, plan, t);
    if gs.len() == 0 {
        assert(Ids::none().through(t).materials =~= Ids::none().materials);
        assert(Ids::none().through(t).textures =~= Ids::none().textures);
        assert(Ids::none().through(t).texture_vertices =~= Ids::none().texture_vertices);
    } else {
        lemma_geometries_ids(gs.drop_last(), plan, t);
        lemma_geometry_ids(gs.last(), plan, t);
        assert(gs2.drop_last() =~= geometries_transferred(gs.drop_last(), plan, t));
        assert(gs2.last() == gs.last().transferred(plan, t));
        crate::tables::lemma_through_plus(
            geometries_need(gs.drop_last(), all),
            gs.last().needs(all),
            t,
        );
        crate::tables::lemma_through_plus(
            geometries_need(gs2.drop_last(), all),
            gs2.last().needs(all),
            t,
        );
    }
}

} // verus!
