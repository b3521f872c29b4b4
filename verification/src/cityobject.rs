//! City objects: what a city model is made of.

use crate::geometry::{
    survey_geometries,
    geometries_below, lemma_geometries_need_covers,
    geometries_fit, geometries_need, geometries_transferred, lemma_geometries_stable,
    transfer_geometries, Geometry, GeometryView,
};
use crate::json::clone_json;
use crate::scalar::Scalar;
use crate::namemap::NameMap;
use crate::tables::{
    all_need, lemma_all_need_covers, lemma_all_need_len, lemma_all_need_take, lemma_covers_extends,
    lemma_resolved, lemma_resolved_none, lemma_resolved_plus, Ids, Plan, Tables, TablesView,
    add_capped, capped,
};
use vstd::prelude::*;
use vstd::string::StrSliceExecFns;
use vstd::string::StringExecFns;

verus! {

/// The box around an object: its least and its greatest corner.
pub type GeographicalExtent = [Scalar; 6];

/// One city object. Its name is the one that it stands under in its
/// document.
#[derive(Debug, PartialEq)]
pub struct CityObject {
    pub thetype: String,
    pub geographical_extent: Option<GeographicalExtent>,
    pub attributes: Option<serde_json::Value>,
    pub geometry: Option<Vec<Geometry>>,
    pub children: Option<Vec<String>>,
    pub children_roles: Option<Vec<String>>,
    pub parents: Option<Vec<String>>,
    pub other: Option<serde_json::Value>,
}

/// What a [`CityObject`] holds.
pub struct CityObjectView {
    pub thetype: Seq<char>,
    pub geographical_extent: Option<GeographicalExtent>,
    pub attributes: Option<serde_json::Value>,
    pub geometry: Option<Seq<GeometryView>>,
    pub children: Option<Seq<Seq<char>>>,
    pub children_roles: Option<Seq<Seq<char>>>,
    pub parents: Option<Seq<Seq<char>>>,
    pub other: Option<serde_json::Value>,
}

/// What a list of names holds, if it is there.
pub open spec fn names_view(names: Option<Vec<String>>) -> Option<Seq<Seq<char>>> {
    match names {
        Some(v) => Some(v.deep_view()),
        None => None,
    }
}

/// A copy of a list of names.
pub fn clone_names(names: &Option<Vec<String>>) -> (r: Option<Vec<String>>)
    ensures
        names_view(r) == names_view(*names),
{
    match names {
        Some(v) => {
            let c = v.clone();
            assert(c.deep_view() =~= v.deep_view());
            Some(c)
        },
        None => None,
    }
}

impl DeepView for CityObject {
    type V = CityObjectView;

    open spec fn deep_view(&self) -> CityObjectView {
        CityObjectView {
            thetype: self.thetype@,
            geographical_extent: self.geographical_extent,
            attributes: self.attributes,
            geometry: match self.geometry {
                Some(gs) => Some(gs.deep_view()),
                None => None,
            },
            children: names_view(self.children),
            children_roles: names_view(self.children_roles),
            parents: names_view(self.parents),
            other: self.other,
        }
    }
}

impl View for CityObject {
    type V = CityObjectView;

    open spec fn view(&self) -> CityObjectView {
        self.deep_view()
    }
}

impl Clone for CityObject {
    fn clone(&self) -> (r: Self)
        ensures
            r@ == self@,
    {
        let geometry = match &self.geometry {
            Some(gs) => {
                let c = gs.clone();
                assert(c.deep_view() =~= gs.deep_view());
                Some(c)
            },
            None => None,
        };
        CityObject {
            thetype: self.thetype.clone(),
            geographical_extent: self.geographical_extent,
            attributes: clone_json(&self.attributes),
            geometry,
            children: clone_names(&self.children),
            children_roles: clone_names(&self.children_roles),
            parents: clone_names(&self.parents),
            other: clone_json(&self.other),
        }
    }
}

impl CityObjectView {
    /// Whether the object has no parent.
    pub open spec fn is_toplevel(self) -> bool {
        match self.parents {
            Some(p) => p.len() == 0,
            None => true,
        }
    }

    /// The names of the children, in order.
    pub open spec fn children_keys(self) -> Seq<Seq<char>> {
        match self.children {
            Some(c) => c,
            None => Seq::empty(),
        }
    }

    /// What a transfer of the object resolves.
    pub open spec fn needs(self, plan: Plan) -> Ids {
        match self.geometry {
            Some(gs) => geometries_need(gs, plan),
            None => Ids::none(),
        }
    }

    /// Whether the boundary of each geometry can be shifted, where `plan`
    /// shifts it.
    pub open spec fn fits(self, plan: Plan) -> bool {
        match self.geometry {
            Some(gs) => geometries_fit(gs, plan),
            None => true,
        }
    }

    /// Whether every vertex index of every geometry is below `bound`.
    pub open spec fn below(self, bound: int) -> bool {
        match self.geometry {
            Some(gs) => geometries_below(gs, bound),
            None => true,
        }
    }

    /// The object, each of its geometries transferred.
    pub open spec fn transferred(self, plan: Plan, t: TablesView) -> CityObjectView {
        CityObjectView {
            geometry: match self.geometry {
                Some(gs) => Some(geometries_transferred(gs, plan, t)),
                None => None,
            },
            ..self
        }
    }
}

/// Tables that grow do not change how an object that they cover is
/// transferred.
pub proof fn lemma_object_stable(o: CityObjectView, plan: Plan, a: TablesView, b: TablesView)
    requires
        a.covers(o.needs(plan)),
        a.extends(b),
    ensures
        o.transferred(plan, a) == o.transferred(plan, b),
        b.covers(o.needs(plan)),
{
    match o.geometry {
        Some(gs) => {
            lemma_geometries_stable(gs, plan, a, b);
        },
        None => {},
    }
}

/// The place after the plus signs that stand at `i` and after.
pub open spec fn skip_plus(s: Seq<char>, i: int) -> int
    decreases s.len() - i,
{
    if 0 <= i < s.len() && s[i] == '+' {
        skip_plus(s, i + 1)
    } else {
        i
    }
}

/// The place of the first plus sign or full stop at `i` or after, or else
/// the end.
pub open spec fn name_end(s: Seq<char>, i: int) -> int
    decreases s.len() - i,
{
    if 0 <= i < s.len() && s[i] != '+' && s[i] != '.' {
        name_end(s, i + 1)
    } else {
        i
    }
}

/// Whether a type is that of an extension: it starts with a plus sign.
pub open spec fn is_extension(s: Seq<char>) -> bool {
    s.len() > 0 && s[0] == '+'
}

/// The name of the extension that a type is from: what stands between the
/// leading plus signs and the next plus sign or full stop.
pub open spec fn extension_name(s: Seq<char>) -> Option<Seq<char>> {
    if is_extension(s) {
        Some(s.subrange(skip_plus(s, 0), name_end(s, skip_plus(s, 0))))
    } else {
        None
    }
}

impl CityObject {
    /// A city object of these parts.
    pub fn new(
        thetype: String,
        geographical_extent: Option<GeographicalExtent>,
        attributes: Option<serde_json::Value>,
        geometry: Option<Vec<Geometry>>,
        children: Option<Vec<String>>,
        children_roles: Option<Vec<String>>,
        parents: Option<Vec<String>>,
        other: Option<serde_json::Value>,
    ) -> (o: Self)
        ensures
            o == (CityObject {
                thetype,
                geographical_extent,
                attributes,
                geometry,
                children,
                children_roles,
                parents,
                other,
            }),
    {
        CityObject {
            thetype,
            geographical_extent,
            attributes,
            geometry,
            children,
            children_roles,
            parents,
            other,
        }
    }

    /// The type of the object.
    pub fn get_type(&self) -> (t: String)
        ensures
            t@ == self@.thetype,
    {
        self.thetype.clone()
    }

    /// Whether the type is that of an extension.
    pub fn is_extension_type(&self) -> (b: bool)
        ensures
            b == is_extension(self@.thetype),
    {
        let s = self.thetype.as_str();
        s.unicode_len() > 0 && s.get_char(0) == '+'
    }

    /// The name of the extension that the type is from, if it is from one.
    pub fn get_extension_type(&self) -> (r: Option<String>)
        ensures
            match extension_name(self@.thetype) {
                Some(name) => r is Some && r->0@ == name,
                None => r is None,
            },
    {
        if !self.is_extension_type() {
            return None;
        }
        let s = self.thetype.as_str();
        let n = s.unicode_len();
        let mut from: usize = 0;
        while from < n && s.get_char(from) == '+'
            invariant
                from <= n,
                n == s@.len(),
                skip_plus(s@, 0) == skip_plus(s@, from as int),
            decreases n - from,
        {
            from += 1;
        }
        let mut to: usize = from;
        while to < n && s.get_char(to) != '+' && s.get_char(to) != '.'
            invariant
                from <= to <= n,
                n == s@.len(),
                name_end(s@, from as int) == name_end(s@, to as int),
            decreases n - to,
        {
            to += 1;
        }
        Some(String::from_str(s.substring_char(from, to)))
    }

    /// Whether the object has no parent: no list of parents, or an empty one.
    pub fn is_toplevel(&self) -> (b: bool)
        ensures
            b == self@.is_toplevel(),
    {
        match &self.parents {
            Some(x) => x.len() == 0,
            None => true,
        }
    }

    /// The names of the children, in order.
    pub fn get_children_keys(&self) -> (keys: Vec<String>)
        ensures
            keys.deep_view() == self@.children_keys(),
    {
        match &self.children {
            Some(x) => {
                let c = x.clone();
                assert(c.deep_view() =~= x.deep_view());
                c
            },
            None => {
                let c: Vec<String> = Vec::new();
                assert(c.deep_view() =~= Seq::<Seq<char>>::empty());
                c
            },
        }
    }

    /// Transfers each geometry of the object into another numbering, in
    /// order.
    pub fn transfer(&mut self, plan: Plan, tables: &mut Tables, uv_offset: usize)
        requires
            old(tables).wf(),
            old(self)@.fits(plan),
            old(tables)@.room(old(self)@.needs(plan), uv_offset),
        ensures
            final(tables).wf(),
            final(tables)@ == old(tables)@.resolved(old(self)@.needs(plan), uv_offset),
            final(self)@ == old(self)@.transferred(plan, final(tables)@),
    {
        match &mut self.geometry {
            Some(gs) => {
                transfer_geometries(gs, plan, tables, uv_offset);
            },
            None => {
                proof {
                    lemma_resolved_none(tables@, uv_offset);
                }
            },
        }
    }
}

/// City objects under their names, in order.
pub type Objects = Seq<(Seq<char>, CityObjectView)>;

/// What a transfer of one object under `plan` resolves, as a value.
pub open spec fn object_need_fn(plan: Plan) -> spec_fn((Seq<char>, CityObjectView)) -> Ids {
    |e: (Seq<char>, CityObjectView)| e.1.needs(plan)
}

/// What a transfer of the objects under `plan` resolves, object after
/// object.
pub open spec fn objects_need(os: Objects, plan: Plan) -> Ids {
    all_need(os, object_need_fn(plan))
}

/// Whether the boundary of each geometry of each object can be shifted,
/// where `plan` shifts it.
pub open spec fn objects_fit(os: Objects, plan: Plan) -> bool {
    forall|i: int| 0 <= i < os.len() ==> (#[trigger] os[i]).1.fits(plan)
}

/// The objects, each transferred, under the names that they had.
pub open spec fn objects_transferred(os: Objects, plan: Plan, t: TablesView) -> Objects {
    Seq::new(os.len(), |i: int| (os[i].0, os[i].1.transferred(plan, t)))
}

/// Tables that grow do not change how objects that they cover are
/// transferred.
pub proof fn lemma_objects_stable(os: Objects, plan: Plan, a: TablesView, b: TablesView)
    requires
        a.covers(objects_need(os, plan)),
        a.extends(b),
    ensures
        objects_transferred(os, plan, a) == objects_transferred(os, plan, b),
        b.covers(objects_need(os, plan)),
{
    assert forall|i: int| 0 <= i < os.len() implies os[i].1.transferred(plan, a)
        == os[i].1.transferred(plan, b) by {
        lemma_all_need_covers(os, object_need_fn(plan), a, i);
        lemma_object_stable(os[i].1, plan, a, b);
    }
    assert(objects_transferred(os, plan, a) =~= objects_transferred(os, plan, b));
    lemma_covers_extends(a, b, objects_need(os, plan));
}

/// Transfers each object into another numbering under `plan`, in order.
pub fn transfer_objects(
    objects: &mut NameMap<CityObject>,
    plan: Plan,
    tables: &mut Tables,
    uv_offset: usize,
)
    requires
        old(tables).wf(),
        objects_fit(old(objects).deep_view(), plan),
        old(tables)@.room(objects_need(old(objects).deep_view(), plan), uv_offset),
    ensures
        final(tables).wf(),
        final(tables)@ == old(tables)@.resolved(
            objects_need(old(objects).deep_view(), plan),
            uv_offset,
        ),
        final(objects).deep_view() == objects_transferred(
            old(objects).deep_view(),
            plan,
            final(tables)@,
        ),
{
    let n = objects.entries.len();
    let ghost v0 = old(objects).deep_view();
    let ghost t0 = tables@;
    let ghost need = object_need_fn(plan);
    let mut i: usize = 0;
    proof {
        tables.lemma_unique();
        assert(v0.take(0) =~= Seq::<(Seq<char>, CityObjectView)>::empty());
        lemma_resolved_none(t0, uv_offset);
    }
    while i < n
        invariant
            i <= n,
            n == old(objects).entries@.len(),
            objects.entries@.len() == n,
            v0 == old(objects).deep_view(),
            need == object_need_fn(plan),
            t0 == old(tables)@,
            t0.unique(),
            tables.wf(),
            objects_fit(v0, plan),
            t0.room(all_need(v0, need), uv_offset),
            tables@ == t0.resolved(all_need(v0.take(i as int), need), uv_offset),
            forall|j: int| i <= j < n ==> objects.entries@[j] == old(objects).entries@[j],
            forall|j: int|
                0 <= j < i ==> (#[trigger] objects.entries@[j]).0 == old(objects).entries@[j].0
                    && objects.entries@[j].1@ == v0[j].1.transferred(plan, tables@)
                    && tables@.covers(v0[j].1.needs(plan)),
        decreases n - i,
    {
        let ghost before = tables@;
        let ghost o = v0[i as int].1;
        proof {
            tables.lemma_unique();
            lemma_all_need_take(v0, need, i as int);
            lemma_all_need_len(v0, need, i + 1);
            lemma_resolved(t0, all_need(v0.take(i as int), need), uv_offset);
            assert(objects.entries@[i as int].1@ == o);
            assert(v0[i as int].1.fits(plan));
            assert(need(v0[i as int]) == o.needs(plan));
        }
        objects.entries[i].1.transfer(plan, tables, uv_offset);
        proof {
            lemma_resolved(before, o.needs(plan), uv_offset);
            lemma_resolved_plus(t0, all_need(v0.take(i as int), need), o.needs(plan), uv_offset);
            assert forall|j: int| 0 <= j < i + 1 implies (#[trigger] objects.entries@[j]).0 == old(
                objects,
            ).entries@[j].0 && objects.entries@[j].1@ == v0[j].1.transferred(plan, tables@)
                && tables@.covers(v0[j].1.needs(plan)) by {
                if j < i {
                    lemma_object_stable(v0[j].1, plan, before, tables@);
                }
            }
        }
        i += 1;
    }
    proof {
        assert(v0.take(n as int) =~= v0);
        assert(objects.deep_view() =~= objects_transferred(v0, plan, tables@));
    }
}

/// Whether every vertex index of every object is below `bound`.
pub open spec fn objects_below(os: Objects, bound: int) -> bool {
    forall|i: int| 0 <= i < os.len() ==> (#[trigger] os[i]).1.below(bound)
}

/// Objects whose vertex indices are all below `bound` need no vertex index
/// that is not.
pub proof fn lemma_objects_need_below(os: Objects, plan: Plan, bound: int)
    requires
        objects_below(os, bound),
    ensures
        crate::remap::ids_below(objects_need(os, plan).vertices, bound),
    decreases os.len(),
{
    if os.len() > 0 {
        let front = os.drop_last();
        assert forall|i: int| 0 <= i < front.len() implies (#[trigger] front[i]).1.below(bound) by {
            assert(front[i] == os[i]);
        }
        lemma_objects_need_below(front, plan, bound);
        let a = objects_need(front, plan).vertices;
        let b = os.last().1.needs(plan).vertices;
        assert(os.last() == os[os.len() - 1]);
        assert(os.last().1.below(bound));
        match os.last().1.geometry {
            Some(gs) => {
                crate::geometry::lemma_geometries_need_below(gs, plan, bound);
            },
            None => {},
        }
        assert(objects_need(os, plan).vertices == a + b);
        assert forall|k: int| 0 <= k < (a + b).len() implies #[trigger] (a + b)[k] < bound by {
            if k >= a.len() {
                assert(b[k - a.len()] < bound);
            }
        }
    }
}

/// Whether the vertex table sends every vertex index of the object to a new
/// id below `bound`.
pub open spec fn object_lands_below(o: CityObjectView, v: crate::remap::Pairs, bound: int) -> bool {
    match o.geometry {
        Some(gs) => forall|i: int|
            0 <= i < gs.len() ==> crate::nested::lands_below(
                v,
                (#[trigger] gs[i]).boundaries.vertex_ids(),
                bound,
            ),
        None => true,
    }
}

/// An object whose vertex indices all get new ids below `bound` has, once
/// renumbered, every vertex index below `bound`.
pub proof fn lemma_object_renumbered_within(
    o: CityObjectView,
    plan: Plan,
    t: TablesView,
    bound: int,
)
    requires
        plan.boundaries is Renumber,
        object_lands_below(o, t.vertices, bound),
    ensures
        o.transferred(plan, t).below(bound),
{
    match o.geometry {
        Some(gs) => {
            let gs2 = geometries_transferred(gs, plan, t);
            assert forall|i: int| 0 <= i < gs2.len() implies (#[trigger] gs2[i]).boundaries.below(
                bound,
            ) by {
                assert(crate::nested::lands_below(t.vertices, gs[i].boundaries.vertex_ids(), bound));
                crate::nested::lemma_renumbered_within(gs[i].boundaries, t.vertices, bound);
            }
        },
        None => {},
    }
}

/// An object below `bound` whose boundaries are shifted by `k` is below
/// `bound + k`.
pub proof fn lemma_object_shifted_below(
    o: CityObjectView,
    plan: Plan,
    t: TablesView,
    bound: int,
)
    requires
        plan.boundaries is Shift,
        o.below(bound),
        o.fits(plan),
    ensures
        o.transferred(plan, t).below(bound + plan.boundaries->Shift_0),
{
    match o.geometry {
        Some(gs) => {
            let gs2 = geometries_transferred(gs, plan, t);
            assert forall|i: int| 0 <= i < gs2.len() implies (#[trigger] gs2[i]).boundaries.below(
                bound + plan.boundaries->Shift_0,
            ) by {
                assert(gs[i].boundaries.below(bound));
                assert(gs[i].fits(plan));
                crate::nested::lemma_shifted_below(
                    gs[i].boundaries,
                    plan.boundaries->Shift_0,
                    bound,
                );
            }
        },
        None => {},
    }
}

/// An object below `bound` is below every greater bound.
pub proof fn lemma_object_below_more(o: CityObjectView, bound: int, more: int)
    requires
        o.below(bound),
        bound <= more,
    ensures
        o.below(more),
{
    match o.geometry {
        Some(gs) => {
            assert forall|i: int| 0 <= i < gs.len() implies (#[trigger] gs[i]).boundaries.below(
                more,
            ) by {
                assert(gs[i].boundaries.below(bound));
                crate::nested::lemma_below_more(gs[i].boundaries, bound, more);
            }
        },
        None => {},
    }
}

/// Tables that cover what an object needs under a plan that renumbers the
/// boundaries cover the vertex indices of each of its geometries.
pub proof fn lemma_object_covers(o: CityObjectView, plan: Plan, t: TablesView)
    requires
        plan.boundaries is Renumber,
        t.covers(o.needs(plan)),
    ensures
        match o.geometry {
            Some(gs) => forall|i: int|
                0 <= i < gs.len() ==> crate::remap::covers(
                    t.vertices,
                    (#[trigger] gs[i]).boundaries.vertex_ids(),
                ),
            None => true,
        },
{
    match o.geometry {
        Some(gs) => {
            assert forall|i: int| 0 <= i < gs.len() implies crate::remap::covers(
                t.vertices,
                (#[trigger] gs[i]).boundaries.vertex_ids(),
            ) by {
                lemma_geometries_need_covers(gs, plan, t, i);
            }
        },
        None => {},
    }
}

/// Tells whether the objects can be transferred under `plan` with
/// `tables`: the boundary of each geometry can be shifted, where the plan
/// shifts it, and the new ids of the texture vertices fit the machine's
/// integers.
pub fn can_transfer_objects(
    objects: &NameMap<CityObject>,
    plan: Plan,
    tables: &Tables,
    uv_offset: usize,
) -> (r: (bool, bool))
    ensures
        r.0 == objects_fit(objects.deep_view(), plan),
        r.0 ==> r.1 == tables@.room(objects_need(objects.deep_view(), plan), uv_offset),
{
    let n = objects.entries.len();
    let ghost v = objects.deep_view();
    let ghost need = object_need_fn(plan);
    let mut c: usize = 0;
    let mut i: usize = 0;
    assert(v.take(0) =~= Seq::<(Seq<char>, CityObjectView)>::empty());
    while i < n
        invariant
            i <= n,
            n == objects.entries@.len(),
            v == objects.deep_view(),
            need == object_need_fn(plan),
            forall|j: int| 0 <= j < i ==> (#[trigger] v[j]).1.fits(plan),
            c == capped(all_need(v.take(i as int), need).texture_vertices.len() as int),
        decreases n - i,
    {
        proof {
            lemma_all_need_take(v, need, i as int);
            assert(v[i as int].1 == objects.entries@[i as int].1@);
            assert(need(v[i as int]) == v[i as int].1.needs(plan));
        }
        match &objects.entries[i].1.geometry {
            Some(gs) => {
                let s = survey_geometries(gs, plan);
                if !s.0 {
                    return (false, false);
                }
                c = add_capped(c, s.1);
            },
            None => {},
        }
        i += 1;
    }
    assert(v.take(n as int) =~= v);
    (true, tables.has_room(c, uv_offset))
}

/// What a transferred object refers to in the appearance is what the
/// object referred to, each reference renumbered if the plan says so.
pub proof fn lemma_object_ids(o: CityObjectView, plan: Plan, t: TablesView)
    ensures
        o.transferred(plan, t).needs(Plan::split()).appearance() == if plan.appearance {
            o.needs(Plan::split()).through(t)
        } else {
            o.needs(Plan::split()).appearance()
        },
{
    match o.geometry {
        Some(gs) => {
            crate::geometry::lemma_geometries_ids(gs, plan, t);
        },
        None => {
            assert(Ids::none().through(t).materials =~= Ids::none().materials);
            assert(Ids::none().through(t).textures =~= Ids::none().textures);
            assert(Ids::none().through(t).texture_vertices =~= Ids::none().texture_vertices);
        },
    }
}

} // verus!
