//! The appearance of a document: its materials, its textures and the
//! vertices of its textures.

use crate::error::{CjseqError, Result};
use crate::namemap::{lemma_prefix_position, position};
use crate::remap::{IdRemap, Pairs};
use crate::scalar::Scalar;
use crate::tables::{Tables, TablesView};
use vstd::prelude::*;
use vstd::string::StringExecFns;

verus! {

/// What can be asked whether it is valid.
pub trait Validate {
    /// Whether the value is valid.
    spec fn valid(&self) -> bool;

    /// Checks the value: `Ok` if it is valid, else the first fault found.
    fn validate(&self) -> (r: Result<()>)
        ensures
            r is Ok <==> self.valid(),
    ;
}

/// Whether a value that may be absent lies between zero and one if present.
pub open spec fn unit_or_absent(v: Option<Scalar>) -> bool {
    match v {
        Some(x) => x.in_unit_interval(),
        None => true,
    }
}

/// Whether each part of a color that may be absent lies between zero and one.
pub open spec fn color_ok(c: Option<[Scalar; 3]>) -> bool {
    match c {
        Some(a) => a[0].in_unit_interval() && a[1].in_unit_interval() && a[2].in_unit_interval(),
        None => true,
    }
}

/// A material.
#[derive(Debug, PartialEq)]
pub struct MaterialObject {
    pub name: String,
    pub ambient_intensity: Option<Scalar>,
    pub diffuse_color: Option<[Scalar; 3]>,
    pub emissive_color: Option<[Scalar; 3]>,
    pub specular_color: Option<[Scalar; 3]>,
    pub shininess: Option<Scalar>,
    pub transparency: Option<Scalar>,
    pub is_smooth: Option<bool>,
}

impl Clone for MaterialObject {
    fn clone(&self) -> (r: Self)
        ensures
            r == *self,
    {
        MaterialObject {
            name: self.name.clone(),
            ambient_intensity: self.ambient_intensity,
            diffuse_color: self.diffuse_color,
            emissive_color: self.emissive_color,
            specular_color: self.specular_color,
            shininess: self.shininess,
            transparency: self.transparency,
            is_smooth: self.is_smooth,
        }
    }
}

impl Default for MaterialObject {
    fn default() -> (r: Self)
        ensures
            r.name@ == Seq::<char>::empty(),
            r.ambient_intensity is None,
            r.diffuse_color is None,
            r.emissive_color is None,
            r.specular_color is None,
            r.shininess is None,
            r.transparency is None,
            r.is_smooth is None,
    {
        MaterialObject {
            name: String::new(),
            ambient_intensity: None,
            diffuse_color: None,
            emissive_color: None,
            specular_color: None,
            shininess: None,
            transparency: None,
            is_smooth: None,
        }
    }
}

/// Tells whether a value that may be absent lies between zero and one.
fn check_unit(v: &Option<Scalar>) -> (b: bool)
    ensures
        b == unit_or_absent(*v),
{
    match v {
        Some(x) => x.is_in_unit_interval(),
        None => true,
    }
}

/// Tells whether each part of a color lies between zero and one.
fn check_color(c: &Option<[Scalar; 3]>) -> (b: bool)
    ensures
        b == color_ok(*c),
{
    match c {
        Some(a) => a[0].is_in_unit_interval() && a[1].is_in_unit_interval()
            && a[2].is_in_unit_interval(),
        None => true,
    }
}

/// The error for a field of a material that is out of range.
fn out_of_range(field: &str) -> (e: CjseqError)
    ensures
        e matches CjseqError::InvalidValue { field: f, reason } && f@ == field@ && reason@
            == "must be between 0.0 and 1.0"@,
{
    CjseqError::InvalidValue {
        field: String::from_str(field),
        reason: String::from_str("must be between 0.0 and 1.0"),
    }
}

impl MaterialObject {
    /// The first field that holds a value out of range, in the order in
    /// which they are checked.
    pub open spec fn fault(self) -> Option<Seq<char>> {
        if !unit_or_absent(self.ambient_intensity) {
            Some("ambient_intensity"@)
        } else if !color_ok(self.diffuse_color) {
            Some("diffuse_color"@)
        } else if !color_ok(self.emissive_color) {
            Some("emissive_color"@)
        } else if !color_ok(self.specular_color) {
            Some("specular_color"@)
        } else if !unit_or_absent(self.shininess) {
            Some("shininess"@)
        } else if !unit_or_absent(self.transparency) {
            Some("transparency"@)
        } else {
            None
        }
    }
}

impl Validate for MaterialObject {
    /// Every intensity and every part of every color lies between zero and
    /// one.
    open spec fn valid(&self) -> bool {
        self.fault() is None
    }

    fn validate(&self) -> (r: Result<()>)
        ensures
            match self.fault() {
                Some(f) => r matches Err(CjseqError::InvalidValue { field, reason }) && field@
                    == f && reason@ == "must be between 0.0 and 1.0"@,
                None => r is Ok,
            },
    {
        if !check_unit(&self.ambient_intensity) {
            return Err(out_of_range("ambient_intensity"));
        }
        if !check_color(&self.diffuse_color) {
            return Err(out_of_range("diffuse_color"));
        }
        if !check_color(&self.emissive_color) {
            return Err(out_of_range("emissive_color"));
        }
        if !check_color(&self.specular_color) {
            return Err(out_of_range("specular_color"));
        }
        if !check_unit(&self.shininess) {
            return Err(out_of_range("shininess"));
        }
        if !check_unit(&self.transparency) {
            return Err(out_of_range("transparency"));
        }
        Ok(())
    }
}

/// The format of the image of a texture.
#[derive(Clone, Copy, Debug, PartialEq, Eq)]
pub enum TextFormat {
    Png,
    Jpg,
}

impl Default for TextFormat {
    fn default() -> (r: Self)
        ensures
            r == TextFormat::Jpg,
    {
        TextFormat::Jpg
    }
}

/// How a texture goes on beyond its image.
#[derive(Clone, Copy, Debug, PartialEq, Eq)]
pub enum WrapMode {
    NoWrap,
    Wrap,
    Mirror,
    Clamp,
    Border,
}

/// What a texture shows.
#[derive(Clone, Copy, Debug, PartialEq, Eq)]
pub enum TextType {
    Unknown,
    Specific,
    Typical,
}

/// A texture.
#[derive(Debug, PartialEq)]
pub struct TextureObject {
    pub texture_format: TextFormat,
    pub image: String,
    pub wrap_mode: Option<WrapMode>,
    pub texture_type: Option<TextType>,
    pub border_color: Option<[Scalar; 4]>,
}

impl Clone for TextureObject {
    fn clone(&self) -> (r: Self)
        ensures
            r == *self,
    {
        TextureObject {
            texture_format: self.texture_format,
            image: self.image.clone(),
            wrap_mode: self.wrap_mode,
            texture_type: self.texture_type,
            border_color: self.border_color,
        }
    }
}

impl Default for TextureObject {
    fn default() -> (r: Self)
        ensures
            r.texture_format == TextFormat::Jpg,
            r.image@ == Seq::<char>::empty(),
            r.wrap_mode is None,
            r.texture_type is None,
            r.border_color is None,
    {
        TextureObject {
            texture_format: TextFormat::Jpg,
            image: String::new(),
            wrap_mode: None,
            texture_type: None,
            border_color: None,
        }
    }
}

/// The reason given for the part `i` of a border color that is out of range.
pub open spec fn border_reason(i: int) -> Seq<char> {
    if i == 0 {
        "border_color[0] must be between 0.0 and 1.0"@
    } else if i == 1 {
        "border_color[1] must be between 0.0 and 1.0"@
    } else if i == 2 {
        "border_color[2] must be between 0.0 and 1.0"@
    } else {
        "border_color[3] must be between 0.0 and 1.0"@
    }
}

impl TextureObject {
    /// The first part of the border color that is out of range.
    pub open spec fn fault(self) -> Option<int> {
        match self.border_color {
            Some(c) => if !c[0].in_unit_interval() {
                Some(0)
            } else if !c[1].in_unit_interval() {
                Some(1)
            } else if !c[2].in_unit_interval() {
                Some(2)
            } else if !c[3].in_unit_interval() {
                Some(3)
            } else {
                None
            },
            None => None,
        }
    }
}

/// The error for the part `i` of a border color that is out of range.
fn border_out_of_range(i: usize) -> (e: CjseqError)
    requires
        i < 4,
    ensures
        e matches CjseqError::InvalidValue { field, reason } && field@ == "border_color"@ && reason@
            == border_reason(i as int),
{
    let reason = if i == 0 {
        String::from_str("border_color[0] must be between 0.0 and 1.0")
    } else if i == 1 {
        String::from_str("border_color[1] must be between 0.0 and 1.0")
    } else if i == 2 {
        String::from_str("border_color[2] must be between 0.0 and 1.0")
    } else {
        String::from_str("border_color[3] must be between 0.0 and 1.0")
    };
    CjseqError::InvalidValue { field: String::from_str("border_color"), reason }
}

impl Validate for TextureObject {
    /// Every part of the border color lies between zero and one.
    open spec fn valid(&self) -> bool {
        self.fault() is None
    }

    fn validate(&self) -> (r: Result<()>)
        ensures
            match self.fault() {
                Some(i) => r matches Err(CjseqError::InvalidValue { field, reason }) && field@
                    == "border_color"@ && reason@ == border_reason(i),
                None => r is Ok,
            },
    {
        match &self.border_color {
            Some(c) => {
                let mut i: usize = 0;
                while i < 4
                    invariant
                        i <= 4,
                        self.border_color == Some(*c),
                        forall|j: int| 0 <= j < i ==> c[j].in_unit_interval(),
                    decreases 4 - i,
                {
                    if !c[i].is_in_unit_interval() {
                        return Err(border_out_of_range(i));
                    }
                    i += 1;
                }
                Ok(())
            },
            None => Ok(()),
        }
    }
}

/// The materials, the textures and the texture vertices of a document.
#[derive(Debug, PartialEq)]
pub struct Appearance {
    pub materials: Option<Vec<MaterialObject>>,
    pub textures: Option<Vec<TextureObject>>,
    pub vertices_texture: Option<Vec<[Scalar; 2]>>,
    pub default_theme_texture: Option<String>,
    pub default_theme_material: Option<String>,
}

/// What an [`Appearance`] holds.
pub struct AppearanceView {
    pub materials: Option<Seq<MaterialObject>>,
    pub textures: Option<Seq<TextureObject>>,
    pub vertices_texture: Option<Seq<[Scalar; 2]>>,
    pub default_theme_texture: Option<Seq<char>>,
    pub default_theme_material: Option<Seq<char>>,
}

/// What a text holds, if it is there.
pub open spec fn text_view(s: Option<String>) -> Option<Seq<char>> {
    match s {
        Some(x) => Some(x@),
        None => None,
    }
}

/// A copy of a text that may be absent.
pub fn clone_text(s: &Option<String>) -> (r: Option<String>)
    ensures
        r == *s,
{
    match s {
        Some(x) => Some(x.clone()),
        None => None,
    }
}

impl DeepView for Appearance {
    type V = AppearanceView;

    open spec fn deep_view(&self) -> AppearanceView {
        AppearanceView {
            materials: match self.materials {
                Some(m) => Some(m@),
                None => None,
            },
            textures: match self.textures {
                Some(t) => Some(t@),
                None => None,
            },
            vertices_texture: match self.vertices_texture {
                Some(v) => Some(v@),
                None => None,
            },
            default_theme_texture: text_view(self.default_theme_texture),
            default_theme_material: text_view(self.default_theme_material),
        }
    }
}

impl View for Appearance {
    type V = AppearanceView;

    open spec fn view(&self) -> AppearanceView {
        self.deep_view()
    }
}

impl Clone for Appearance {
    fn clone(&self) -> (r: Self)
        ensures
            r@ == self@,
    {
        Appearance {
            materials: match &self.materials {
                Some(m) => {
                    let c = m.clone();
                    assert(c@ =~= m@);
                    Some(c)
                },
                None => None,
            },
            textures: match &self.textures {
                Some(t) => {
                    let c = t.clone();
                    assert(c@ =~= t@);
                    Some(c)
                },
                None => None,
            },
            vertices_texture: match &self.vertices_texture {
                Some(v) => Some(copy_items(v)),
                None => None,
            },
            default_theme_texture: clone_text(&self.default_theme_texture),
            default_theme_material: clone_text(&self.default_theme_material),
        }
    }
}

/// The names of the materials, in order.
pub open spec fn material_names(s: Seq<MaterialObject>) -> Seq<Seq<char>> {
    Seq::new(s.len(), |i: int| s[i].name@)
}

/// The images of the textures, in order.
pub open spec fn texture_images(s: Seq<TextureObject>) -> Seq<Seq<char>> {
    Seq::new(s.len(), |i: int| s[i].image@)
}

/// Every old id that `t` records is below `bound`.
pub open spec fn olds_below(t: Pairs, bound: int) -> bool {
    forall|p: int| 0 <= p < t.len() ==> (#[trigger] t[p]).0 < bound
}

/// The items of `source` that `t` records, each at the place of its new id.
pub open spec fn picked<T>(source: Seq<T>, t: Pairs) -> Seq<T> {
    Seq::new(t.len(), |p: int| source[t[p].0 as int])
}

impl AppearanceView {
    /// An appearance that holds nothing.
    pub open spec fn empty() -> AppearanceView {
        AppearanceView {
            materials: None,
            textures: None,
            vertices_texture: None,
            default_theme_texture: None,
            default_theme_material: None,
        }
    }

    /// The materials, none if there is no list of them.
    pub open spec fn material_list(self) -> Seq<MaterialObject> {
        match self.materials {
            Some(m) => m,
            None => Seq::empty(),
        }
    }

    /// The textures, none if there is no list of them.
    pub open spec fn texture_list(self) -> Seq<TextureObject> {
        match self.textures {
            Some(t) => t,
            None => Seq::empty(),
        }
    }

    /// The texture vertices, none if there is no list of them.
    pub open spec fn vertex_list(self) -> Seq<[Scalar; 2]> {
        match self.vertices_texture {
            Some(v) => v,
            None => Seq::empty(),
        }
    }

    /// The place of the first material of the name of `value`, and the
    /// appearance with `value` added unless there is such a material.
    pub open spec fn with_material(self, value: MaterialObject) -> (int, AppearanceView) {
        match position(material_names(self.material_list()), value.name@) {
            Some(p) => (p, self),
            None => (
                self.material_list().len() as int,
                AppearanceView { materials: Some(self.material_list().push(value)), ..self },
            ),
        }
    }

    /// The place of the first texture of the image of `value`, and the
    /// appearance with `value` added unless there is such a texture.
    pub open spec fn with_texture(self, value: TextureObject) -> (int, AppearanceView) {
        match position(texture_images(self.texture_list()), value.image@) {
            Some(p) => (p, self),
            None => (
                self.texture_list().len() as int,
                AppearanceView { textures: Some(self.texture_list().push(value)), ..self },
            ),
        }
    }

    /// The appearance with the texture vertices `vs` added at the end.
    pub open spec fn with_vertices(self, vs: Seq<[Scalar; 2]>) -> AppearanceView {
        AppearanceView { vertices_texture: Some(self.vertex_list() + vs), ..self }
    }

    /// Whether every material, texture and texture vertex that the tables
    /// record is one of this appearance, as far as it has a list of them.
    pub open spec fn holds(self, t: TablesView) -> bool {
        &&& self.materials is Some ==> olds_below(t.materials, self.material_list().len() as int)
        &&& self.textures is Some ==> olds_below(t.textures, self.texture_list().len() as int)
        &&& self.vertices_texture is Some ==> olds_below(
            t.texture_vertices,
            self.vertex_list().len() as int,
        )
    }

    /// The part of the appearance that the tables record: of each list that
    /// is there, the items recorded, each at the place of its new id.
    pub open spec fn sliced(self, t: TablesView) -> AppearanceView {
        AppearanceView {
            materials: match self.materials {
                Some(m) => Some(picked(m, t.materials)),
                None => None,
            },
            textures: match self.textures {
                Some(x) => Some(picked(x, t.textures)),
                None => None,
            },
            vertices_texture: match self.vertices_texture {
                Some(v) => Some(picked(v, t.texture_vertices)),
                None => None,
            },
            default_theme_texture: self.default_theme_texture,
            default_theme_material: self.default_theme_material,
        }
    }
}

/// A copy of a list of items that are copied bit by bit.
pub fn copy_items<T: Copy>(source: &Vec<T>) -> (r: Vec<T>)
    ensures
        r@ == source@,
{
    let n = source.len();
    let mut r: Vec<T> = Vec::new();
    let mut i: usize = 0;
    while i < n
        invariant
            i <= n,
            n == source@.len(),
            r@ == source@.take(i as int),
        decreases n - i,
    {
        r.push(source[i]);
        i += 1;
    }
    assert(source@.take(n as int) =~= source@);
    r
}

/// The items of `source` that `table` records, in the order of the table,
/// for items that are copied bit by bit.
pub fn pick_copies<T: Copy>(source: &Vec<T>, table: &IdRemap) -> (r: Vec<T>)
    requires
        olds_below(table@, source@.len() as int),
    ensures
        r@ == picked(source@, table@),
{
    let n = table.len();
    let mut r: Vec<T> = Vec::new();
    let mut p: usize = 0;
    while p < n
        invariant
            p <= n,
            n == table@.len(),
            r@.len() == p,
            olds_below(table@, source@.len() as int),
            forall|q: int| 0 <= q < p ==> source@[table@[q].0 as int] == #[trigger] r@[q],
        decreases n - p,
    {
        let old_id = table.pair_at(p).0;
        r.push(source[old_id]);
        p += 1;
    }
    assert(r@ =~= picked(source@, table@));
    r
}

/// The first place of a material of the name `name`.
fn find_material(list: &Vec<MaterialObject>, name: &String) -> (r: Option<usize>)
    ensures
        match r {
            Some(p) => position(material_names(list@), name@) == Some(p as int),
            None => position(material_names(list@), name@) is None,
        },
{
    let ghost names = material_names(list@);
    let n = list.len();
    let mut p: usize = 0;
    assert(names.take(0) =~= Seq::<Seq<char>>::empty());
    while p < n
        invariant
            p <= n,
            n == list@.len(),
            names == material_names(list@),
            position(names.take(p as int), name@) is None,
        decreases n - p,
    {
        assert(names.take(p + 1).drop_last() =~= names.take(p as int));
        if list[p].name == *name {
            proof {
                lemma_prefix_position(names, name@, p + 1);
            }
            return Some(p);
        }
        p += 1;
    }
    assert(names.take(n as int) =~= names);
    None
}

/// The first place of a texture of the image `image`.
fn find_texture(list: &Vec<TextureObject>, image: &String) -> (r: Option<usize>)
    ensures
        match r {
            Some(p) => position(texture_images(list@), image@) == Some(p as int),
            None => position(texture_images(list@), image@) is None,
        },
{
    let ghost images = texture_images(list@);
    let n = list.len();
    let mut p: usize = 0;
    assert(images.take(0) =~= Seq::<Seq<char>>::empty());
    while p < n
        invariant
            p <= n,
            n == list@.len(),
            images == texture_images(list@),
            position(images.take(p as int), image@) is None,
        decreases n - p,
    {
        assert(images.take(p + 1).drop_last() =~= images.take(p as int));
        if list[p].image == *image {
            proof {
                lemma_prefix_position(images, image@, p + 1);
            }
            return Some(p);
        }
        p += 1;
    }
    assert(images.take(n as int) =~= images);
    None
}

/// Tells whether every old id that `table` records is below `bound`.
pub fn all_below(table: &IdRemap, bound: usize) -> (b: bool)
    ensures
        b == olds_below(table@, bound as int),
{
    let n = table.len();
    let mut p: usize = 0;
    while p < n
        invariant
            p <= n,
            n == table@.len(),
            forall|q: int| 0 <= q < p ==> (#[trigger] table@[q]).0 < bound,
        decreases n - p,
    {
        if table.pair_at(p).0 >= bound {
            return false;
        }
        p += 1;
    }
    true
}

/// The items of `source` that `table` records, in the order of the table.
pub fn pick<T: Clone>(source: &Vec<T>, table: &IdRemap) -> (r: Vec<T>)
    requires
        olds_below(table@, source@.len() as int),
    ensures
        r@.len() == table@.len(),
        forall|p: int|
            0 <= p < table@.len() ==> cloned::<T>(source@[table@[p].0 as int], #[trigger] r@[p]),
{
    let n = table.len();
    let mut r: Vec<T> = Vec::new();
    let mut p: usize = 0;
    while p < n
        invariant
            p <= n,
            n == table@.len(),
            r@.len() == p,
            olds_below(table@, source@.len() as int),
            forall|q: int|
                0 <= q < p ==> cloned::<T>(source@[table@[q].0 as int], #[trigger] r@[q]),
        decreases n - p,
    {
        let old_id = table.pair_at(p).0;
        r.push(source[old_id].clone());
        p += 1;
    }
    r
}

impl Appearance {
    /// An appearance that holds nothing.
    pub fn new() -> (a: Self)
        ensures
            a@ == AppearanceView::empty(),
    {
        Appearance {
            materials: None,
            textures: None,
            vertices_texture: None,
            default_theme_texture: None,
            default_theme_material: None,
        }
    }

    /// Adds a material unless one of its name is there, and gives the place
    /// of the material of that name.
    pub fn add_material(&mut self, value: MaterialObject) -> (i: usize)
        requires
            value.valid(),
        ensures
            (i as int, final(self)@) == old(self)@.with_material(value),
    {
        let found = match &self.materials {
            Some(x) => find_material(x, &value.name),
            None => {
                assert(material_names(Seq::<MaterialObject>::empty()) =~= Seq::<Seq<char>>::empty());
                None
            },
        };
        match found {
            Some(p) => p,
            None => {
                match &mut self.materials {
                    Some(x) => {
                        let n = x.len();
                        x.push(value);
                        n
                    },
                    None => {
                        let mut ls: Vec<MaterialObject> = Vec::new();
                        ls.push(value);
                        assert(ls@ =~= Seq::<MaterialObject>::empty().push(value));
                        self.materials = Some(ls);
                        0
                    },
                }
            },
        }
    }

    /// Adds a texture unless one of its image is there, and gives the place
    /// of the texture of that image.
    pub fn add_texture(&mut self, value: TextureObject) -> (i: usize)
        requires
            value.valid(),
        ensures
            (i as int, final(self)@) == old(self)@.with_texture(value),
    {
        let found = match &self.textures {
            Some(x) => find_texture(x, &value.image),
            None => {
                assert(texture_images(Seq::<TextureObject>::empty()) =~= Seq::<Seq<char>>::empty());
                None
            },
        };
        match found {
            Some(p) => p,
            None => {
                match &mut self.textures {
                    Some(x) => {
                        let n = x.len();
                        x.push(value);
                        n
                    },
                    None => {
                        let mut ls: Vec<TextureObject> = Vec::new();
                        ls.push(value);
                        assert(ls@ =~= Seq::<TextureObject>::empty().push(value));
                        self.textures = Some(ls);
                        0
                    },
                }
            },
        }
    }

    /// Adds texture vertices at the end.
    pub fn add_vertices_texture(&mut self, vs: Vec<[Scalar; 2]>)
        ensures
            final(self)@ == old(self)@.with_vertices(vs@),
    {
        let mut vs = vs;
        match &mut self.vertices_texture {
            Some(x) => {
                x.append(&mut vs);
            },
            None => {
                assert(Seq::<[Scalar; 2]>::empty() + vs@ =~= vs@);
                self.vertices_texture = Some(vs);
            },
        }
    }

    /// Tells whether the appearance holds everything that the tables record.
    pub fn holds(&self, tables: &Tables) -> (b: bool)
        ensures
            b == self@.holds(tables@),
    {
        let m = match &self.materials {
            Some(x) => all_below(&tables.materials, x.len()),
            None => true,
        };
        let t = match &self.textures {
            Some(x) => all_below(&tables.textures, x.len()),
            None => true,
        };
        let v = match &self.vertices_texture {
            Some(x) => all_below(&tables.texture_vertices, x.len()),
            None => true,
        };
        m && t && v
    }

    /// The part of the appearance that the tables record.
    pub fn slice(&self, tables: &Tables) -> (a: Self)
        requires
            self@.holds(tables@),
        ensures
            a@ == self@.sliced(tables@),
    {
        let materials = match &self.materials {
            Some(x) => {
                let r = pick(x, &tables.materials);
                assert(r@ =~= picked(x@, tables@.materials));
                Some(r)
            },
            None => None,
        };
        let textures = match &self.textures {
            Some(x) => {
                let r = pick(x, &tables.textures);
                assert(r@ =~= picked(x@, tables@.textures));
                Some(r)
            },
            None => None,
        };
        let vertices_texture = match &self.vertices_texture {
            Some(x) => Some(pick_copies(x, &tables.texture_vertices)),
            None => None,
        };
        Appearance {
            materials,
            textures,
            vertices_texture,
            default_theme_texture: clone_text(&self.default_theme_texture),
            default_theme_material: clone_text(&self.default_theme_material),
        }
    }
}

/// What an appearance holds, if it is there.
pub open spec fn appearance_view(a: Option<Appearance>) -> Option<AppearanceView> {
    match a {
        Some(x) => Some(x@),
        None => None,
    }
}

/// The appearance, or an empty one if there is none.
pub open spec fn or_empty(a: Option<AppearanceView>) -> AppearanceView {
    match a {
        Some(x) => x,
        None => AppearanceView::empty(),
    }
}

/// A copy of an appearance that may be absent.
pub fn clone_appearance(a: &Option<Appearance>) -> (r: Option<Appearance>)
    ensures
        appearance_view(r) == appearance_view(*a),
{
    match a {
        Some(x) => Some(x.clone()),
        None => None,
    }
}

/// Adds a material to the appearance in `slot`, which is made if it is not
/// there, unless the appearance has a material of that name; gives the place
/// of the material of that name.
pub fn add_material_to(slot: &mut Option<Appearance>, value: MaterialObject) -> (i: usize)
    requires
        value.valid(),
    ensures
        i == or_empty(appearance_view(*old(slot))).with_material(value).0,
        appearance_view(*final(slot)) == Some(
            or_empty(appearance_view(*old(slot))).with_material(value).1,
        ),
{
    match slot {
        Some(x) => x.add_material(value),
        None => {
            let mut a = Appearance::new();
            let i = a.add_material(value);
            *slot = Some(a);
            i
        },
    }
}

/// Adds a texture to the appearance in `slot`, which is made if it is not
/// there, unless the appearance has a texture of that image; gives the place
/// of the texture of that image.
pub fn add_texture_to(slot: &mut Option<Appearance>, value: TextureObject) -> (i: usize)
    requires
        value.valid(),
    ensures
        i == or_empty(appearance_view(*old(slot))).with_texture(value).0,
        appearance_view(*final(slot)) == Some(
            or_empty(appearance_view(*old(slot))).with_texture(value).1,
        ),
{
    match slot {
        Some(x) => x.add_texture(value),
        None => {
            let mut a = Appearance::new();
            let i = a.add_texture(value);
            *slot = Some(a);
            i
        },
    }
}

/// Adds texture vertices at the end of those of the appearance in `slot`,
/// which is made if it is not there.
pub fn add_vertices_texture_to(slot: &mut Option<Appearance>, vs: Vec<[Scalar; 2]>)
    ensures
        appearance_view(*final(slot)) == Some(
            or_empty(appearance_view(*old(slot))).with_vertices(vs@),
        ),
{
    match slot {
        Some(x) => x.add_vertices_texture(vs),
        None => {
            let mut a = Appearance::new();
            a.add_vertices_texture(vs);
            *slot = Some(a);
        },
    }
}

} // verus!
