//! What a document says of itself: its transform, its metadata, its
//! geometry templates and its extensions.

use crate::appearance::{clone_text, copy_items};
use crate::error::{CjseqError, Result};
use crate::geometry::{Geometry, GeometryView};
use crate::scalar::{Scalar, ONE_BITS};
use crate::text::{chars_of, find_char, find_from, first_match, next_char};
use vstd::prelude::*;
use vstd::string::StrSliceExecFns;
use vstd::string::StringExecFns;

verus! {

/// How the stored vertices map to real-world coordinates: each coordinate
/// times its scale, plus its translation.
#[derive(Debug, PartialEq)]
pub struct Transform {
    pub scale: Vec<Scalar>,
    pub translate: Vec<Scalar>,
}

/// What a [`Transform`] holds.
pub struct TransformView {
    pub scale: Seq<Scalar>,
    pub translate: Seq<Scalar>,
}

impl DeepView for Transform {
    type V = TransformView;

    open spec fn deep_view(&self) -> TransformView {
        TransformView { scale: self.scale@, translate: self.translate@ }
    }
}

impl View for Transform {
    type V = TransformView;

    open spec fn view(&self) -> TransformView {
        self.deep_view()
    }
}

impl Clone for Transform {
    fn clone(&self) -> (r: Self)
        ensures
            r@ == self@,
    {
        Transform { scale: copy_items(&self.scale), translate: copy_items(&self.translate) }
    }
}

impl TransformView {
    /// The transform that changes nothing: scale one, translation zero.
    pub open spec fn identity() -> TransformView {
        TransformView {
            scale: seq![Scalar { bits: ONE_BITS }, Scalar { bits: ONE_BITS }, Scalar { bits: ONE_BITS }],
            translate: seq![Scalar { bits: 0 }, Scalar { bits: 0 }, Scalar { bits: 0 }],
        }
    }
}

impl Transform {
    /// The transform that changes nothing.
    pub fn new() -> (t: Self)
        ensures
            t@ == TransformView::identity(),
    {
        let one = Scalar { bits: ONE_BITS };
        let zero = Scalar { bits: 0 };
        let t = Transform { scale: vec![one, one, one], translate: vec![zero, zero, zero] };
        assert(t.scale@ =~= TransformView::identity().scale);
        assert(t.translate@ =~= TransformView::identity().translate);
        t
    }
}

/// A postal address.
#[derive(Debug, PartialEq)]
pub struct Address {
    pub thoroughfare_number: i64,
    pub thoroughfare_name: String,
    pub locality: String,
    pub postal_code: String,
    pub country: String,
}

impl Clone for Address {
    fn clone(&self) -> (r: Self)
        ensures
            r == *self,
    {
        Address {
            thoroughfare_number: self.thoroughfare_number,
            thoroughfare_name: self.thoroughfare_name.clone(),
            locality: self.locality.clone(),
            postal_code: self.postal_code.clone(),
            country: self.country.clone(),
        }
    }
}

/// Whom to ask about a document.
#[derive(Debug, PartialEq)]
pub struct PointOfContact {
    pub contact_name: String,
    pub contact_type: Option<String>,
    pub role: Option<String>,
    pub phone: Option<String>,
    pub email_address: String,
    pub website: Option<String>,
    pub address: Option<Address>,
}

impl Clone for PointOfContact {
    fn clone(&self) -> (r: Self)
        ensures
            r == *self,
    {
        PointOfContact {
            contact_name: self.contact_name.clone(),
            contact_type: clone_text(&self.contact_type),
            role: clone_text(&self.role),
            phone: clone_text(&self.phone),
            email_address: self.email_address.clone(),
            website: clone_text(&self.website),
            address: match &self.address {
                Some(a) => Some(a.clone()),
                None => None,
            },
        }
    }
}

/// A coordinate reference system, named as the OGC names them:
/// `{base}/{authority}/{version}/{code}`.
#[derive(Debug, PartialEq)]
pub struct ReferenceSystem {
    pub base_url: String,
    pub authority: String,
    pub version: String,
    pub code: String,
}

impl Clone for ReferenceSystem {
    fn clone(&self) -> (r: Self)
        ensures
            r == *self,
    {
        ReferenceSystem {
            base_url: self.base_url.clone(),
            authority: self.authority.clone(),
            version: self.version.clone(),
            code: self.code.clone(),
        }
    }
}

/// The four parts of the name of a reference system.
pub struct UrlParts {
    pub base_url: Seq<char>,
    pub authority: Seq<char>,
    pub version: Seq<char>,
    pub code: Seq<char>,
}

/// What the name of a reference system must hold.
pub open spec fn crs_marker() -> Seq<char> {
    "//www.opengis.net/def/crs"@
}

/// The parts of the name `s` of a reference system, if it is one: `s` holds
/// the marker; the base ends with the first `crs` in `s`; one character of
/// one byte follows; and the rest is three parts with a slash between them.
pub open spec fn url_parts(s: Seq<char>) -> Option<UrlParts> {
    let c = first_match(s, "crs"@, 0);
    if first_match(s, crs_marker(), 0) >= s.len() {
        None
    } else if c + 3 >= s.len() || s[c + 3] as u32 >= 128 {
        None
    } else {
        let rest = s.subrange(c + 4, s.len() as int);
        let a = next_char(rest, '/', 0);
        let b = next_char(rest, '/', a + 1);
        if a < rest.len() && b < rest.len() && next_char(rest, '/', b + 1) >= rest.len() {
            Some(
                UrlParts {
                    base_url: s.subrange(0, c + 3),
                    authority: rest.subrange(0, a),
                    version: rest.subrange(a + 1, b),
                    code: rest.subrange(b + 1, rest.len() as int),
                },
            )
        } else {
            None
        }
    }
}

/// The error for a text that does not name a reference system.
fn invalid_url<T>() -> (r: Result<T>)
    ensures
        r matches Err(CjseqError::Generic(m)) && m@ == "Invalid reference system URL"@,
{
    Err(CjseqError::Generic(String::from_str("Invalid reference system URL")))
}

/// The characters of `s` from `from` on.
fn chars_from(s: &Vec<char>, from: usize) -> (r: Vec<char>)
    requires
        from <= s@.len(),
    ensures
        r@ == s@.subrange(from as int, s@.len() as int),
{
    let n = s.len();
    let mut r: Vec<char> = Vec::new();
    let mut i: usize = from;
    while i < n
        invariant
            from <= i <= n,
            n == s@.len(),
            r@ == s@.subrange(from as int, i as int),
        decreases n - i,
    {
        r.push(s[i]);
        assert(s@.subrange(from as int, i + 1).drop_last() =~= s@.subrange(from as int, i as int));
        i += 1;
    }
    r
}

impl ReferenceSystem {
    /// The name of the reference system.
    pub open spec fn url(self) -> Seq<char> {
        self.base_url@ + "/"@ + self.authority@ + "/"@ + self.version@ + "/"@ + self.code@
    }

    /// A reference system of these parts; without a base, that of the OGC.
    pub fn new(base_url: Option<String>, authority: String, version: String, code: String) -> (r:
        Self)
        ensures
            r.base_url@ == (match base_url {
                Some(b) => b@,
                None => "https://www.opengis.net/def/crs"@,
            }),
            r.authority == authority,
            r.version == version,
            r.code == code,
    {
        let base_url = match base_url {
            Some(b) => b,
            None => String::from_str("https://www.opengis.net/def/crs"),
        };
        ReferenceSystem { base_url, authority, version, code }
    }

    /// The name of the reference system: its four parts with a slash between
    /// them.
    pub fn to_url(&self) -> (u: String)
        ensures
            u@ == self.url(),
    {
        self.base_url.clone().concat("/").concat(self.authority.as_str()).concat("/").concat(
            self.version.as_str(),
        ).concat("/").concat(self.code.as_str())
    }

    /// The reference system that `url` names.
    pub fn from_url(url: &str) -> (r: Result<Self>)
        ensures
            match url_parts(url@) {
                Some(p) => r matches Ok(rs) && rs.base_url@ == p.base_url && rs.authority@
                    == p.authority && rs.version@ == p.version && rs.code@ == p.code,
                None => r matches Err(CjseqError::Generic(m)) && m@
                    == "Invalid reference system URL"@,
            },
    {
        let s = chars_of(url);
        let marker = chars_of("//www.opengis.net/def/crs");
        let crs = chars_of("crs");
        let n = s.len();
        if find_from(&s, &marker, 0) >= n {
            return invalid_url();
        }
        let c = find_from(&s, &crs, 0);
        if c >= n || n - c <= 3 {
            return invalid_url();
        }
        if s[c + 3] as u32 >= 128 {
            return invalid_url();
        }
        let start = c + 4;
        let rest = chars_from(&s, start);
        let m = rest.len();
        let a = find_char(&rest, '/', 0);
        if a >= m {
            return invalid_url();
        }
        let b = find_char(&rest, '/', a + 1);
        if b >= m {
            return invalid_url();
        }
        let e = find_char(&rest, '/', b + 1);
        if e < m {
            return invalid_url();
        }
        proof {
            assert(rest@.subrange(0, a as int) =~= s@.subrange(start as int, start + a));
            assert(rest@.subrange(a + 1, b as int) =~= s@.subrange(start + a + 1, start + b));
            assert(rest@.subrange(b + 1, m as int) =~= s@.subrange(start + b + 1, n as int));
        }
        Ok(
            ReferenceSystem {
                base_url: String::from_str(url.substring_char(0, c + 3)),
                authority: String::from_str(url.substring_char(start, start + a)),
                version: String::from_str(url.substring_char(start + a + 1, start + b)),
                code: String::from_str(url.substring_char(start + b + 1, n)),
            },
        )
    }
}

/// What a document says of itself.
#[derive(Debug, PartialEq)]
pub struct Metadata {
    pub geographical_extent: Option<[Scalar; 6]>,
    pub identifier: Option<String>,
    pub point_of_contact: Option<PointOfContact>,
    pub reference_date: Option<String>,
    pub reference_system: Option<ReferenceSystem>,
    pub title: Option<String>,
}

impl Clone for Metadata {
    fn clone(&self) -> (r: Self)
        ensures
            r == *self,
    {
        Metadata {
            geographical_extent: self.geographical_extent,
            identifier: clone_text(&self.identifier),
            point_of_contact: match &self.point_of_contact {
                Some(p) => Some(p.clone()),
                None => None,
            },
            reference_date: clone_text(&self.reference_date),
            reference_system: match &self.reference_system {
                Some(x) => Some(x.clone()),
                None => None,
            },
            title: clone_text(&self.title),
        }
    }
}

/// The geometries that instances refer to, with vertices of their own.
#[derive(Debug, PartialEq)]
pub struct GeometryTemplates {
    pub templates: Vec<Geometry>,
    pub vertices_templates: Vec<[Scalar; 3]>,
}

/// What a [`GeometryTemplates`] holds.
pub struct GeometryTemplatesView {
    pub templates: Seq<GeometryView>,
    pub vertices_templates: Seq<[Scalar; 3]>,
}

impl DeepView for GeometryTemplates {
    type V = GeometryTemplatesView;

    open spec fn deep_view(&self) -> GeometryTemplatesView {
        GeometryTemplatesView {
            templates: self.templates.deep_view(),
            vertices_templates: self.vertices_templates@,
        }
    }
}

impl View for GeometryTemplates {
    type V = GeometryTemplatesView;

    open spec fn view(&self) -> GeometryTemplatesView {
        self.deep_view()
    }
}

impl Clone for GeometryTemplates {
    fn clone(&self) -> (r: Self)
        ensures
            r@ == self@,
    {
        let templates = self.templates.clone();
        assert(templates.deep_view() =~= self.templates.deep_view());
        GeometryTemplates { templates, vertices_templates: copy_items(&self.vertices_templates) }
    }
}

/// An extension that a document uses: where its schema is, and its version.
#[derive(Debug, PartialEq)]
pub struct Extension {
    pub url: String,
    pub version: String,
}

impl Clone for Extension {
    fn clone(&self) -> (r: Self)
        ensures
            r == *self,
    {
        Extension { url: self.url.clone(), version: self.version.clone() }
    }
}

impl DeepView for Extension {
    type V = Extension;

    open spec fn deep_view(&self) -> Extension {
        *self
    }
}

impl Extension {
    /// An extension with its schema at `url`, of the version `version`.
    pub fn new(url: String, version: String) -> (e: Self)
        ensures
            e.url == url,
            e.version == version,
    {
        Extension { url, version }
    }
}

} // verus!
