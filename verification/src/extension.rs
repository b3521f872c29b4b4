//! The file that describes an extension.

use crate::error::{CjseqError, Result};
use crate::json::{
    as_text, empty_object, is_object, json_is_object, json_keys, json_member, json_text, member,
    object_keys,
};
use vstd::prelude::*;
use vstd::string::StringExecFns;

verus! {

/// What the file of an extension holds.
#[derive(Debug, PartialEq)]
pub struct ExtensionFile {
    pub thetype: String,
    pub name: String,
    pub description: String,
    pub url: String,
    pub version: String,
    pub version_city_json: String,
    pub extra_attributes: serde_json::Value,
    pub extra_city_objects: serde_json::Value,
    pub extra_root_properties: serde_json::Value,
    pub extra_semantic_surfaces: serde_json::Value,
}

impl Clone for ExtensionFile {
    fn clone(&self) -> (r: Self)
        ensures
            r == *self,
    {
        ExtensionFile {
            thetype: self.thetype.clone(),
            name: self.name.clone(),
            description: self.description.clone(),
            url: self.url.clone(),
            version: self.version.clone(),
            version_city_json: self.version_city_json.clone(),
            extra_attributes: self.extra_attributes.clone(),
            extra_city_objects: self.extra_city_objects.clone(),
            extra_root_properties: self.extra_root_properties.clone(),
            extra_semantic_surfaces: self.extra_semantic_surfaces.clone(),
        }
    }
}

/// The error for a field of the file of an extension.
fn invalid(field: &str, reason: &str) -> (r: Result<()>)
    ensures
        r matches Err(CjseqError::InvalidValue { field: f, reason: w }) && f@ == field@ && w@
            == reason@,
{
    Err(
        CjseqError::InvalidValue {
            field: String::from_str(field),
            reason: String::from_str(reason),
        },
    )
}

/// The member of `schema` under `key` if it is an object, else `current`.
fn object_or(schema: &serde_json::Value, key: &str, current: serde_json::Value) -> (r:
    serde_json::Value)
    ensures
        r == (match json_member(*schema, key@) {
            Some(m) => if json_is_object(m) {
                m
            } else {
                current
            },
            None => current,
        }),
{
    match member(schema, key) {
        Some(m) => {
            if is_object(m) {
                m.clone()
            } else {
                current
            }
        },
        None => current,
    }
}

impl ExtensionFile {
    /// The first field that is at fault, in the order in which they are
    /// checked, and what is wrong with it.
    pub open spec fn fault(self) -> Option<(Seq<char>, Seq<char>)> {
        if self.thetype@ != "CityJSONExtension"@ {
            Some(("thetype"@, "must be 'CityJSONExtension'"@))
        } else if self.name@.len() == 0 {
            Some(("name"@, "cannot be empty"@))
        } else if self.url@.len() == 0 {
            Some(("url"@, "cannot be empty"@))
        } else if self.version@.len() == 0 {
            Some(("version"@, "cannot be empty"@))
        } else if self.version_city_json@.len() == 0 {
            Some(("versionCityJSON"@, "cannot be empty"@))
        } else if !json_is_object(self.extra_attributes) {
            Some(("extraAttributes"@, "must be a JSON object"@))
        } else if !json_is_object(self.extra_city_objects) {
            Some(("extraCityObjects"@, "must be a JSON object"@))
        } else if !json_is_object(self.extra_root_properties) {
            Some(("extraRootProperties"@, "must be a JSON object"@))
        } else if !json_is_object(self.extra_semantic_surfaces) {
            Some(("extraSemanticSurfaces"@, "must be a JSON object"@))
        } else {
            None
        }
    }

    /// The file of the extension `name` with its schema at `url`, of the
    /// version `version`, that adds nothing.
    pub fn new(name: String, url: String, version: String) -> (e: Self)
        ensures
            e.thetype@ == "CityJSONExtension"@,
            e.name == name,
            e.description@ == ""@,
            e.url == url,
            e.version == version,
            e.version_city_json@ == "2.0"@,
            json_is_object(e.extra_attributes),
            json_is_object(e.extra_city_objects),
            json_is_object(e.extra_root_properties),
            json_is_object(e.extra_semantic_surfaces),
            json_keys(e.extra_city_objects).len() == 0,
    {
        ExtensionFile {
            thetype: String::from_str("CityJSONExtension"),
            name,
            description: String::from_str(""),
            url,
            version,
            version_city_json: String::from_str("2.0"),
            extra_attributes: empty_object(),
            extra_city_objects: empty_object(),
            extra_root_properties: empty_object(),
            extra_semantic_surfaces: empty_object(),
        }
    }

    /// Takes from `schema` what it says of the extension: its description,
    /// if that is a text, and each of the four additions that is an object.
    pub fn populate_extension_from_json(extension: &mut Self, schema: serde_json::Value)
        ensures
            final(extension).thetype == old(extension).thetype,
            final(extension).name == old(extension).name,
            final(extension).url == old(extension).url,
            final(extension).version == old(extension).version,
            final(extension).version_city_json == old(extension).version_city_json,
            match json_member(schema, "description"@) {
                Some(m) => match json_text(m) {
                    Some(t) => final(extension).description@ == t,
                    None => final(extension).description == old(extension).description,
                },
                None => final(extension).description == old(extension).description,
            },
            final(extension).extra_attributes == (match json_member(schema, "extraAttributes"@) {
                Some(m) => if json_is_object(m) {
                    m
                } else {
                    old(extension).extra_attributes
                },
                None => old(extension).extra_attributes,
            }),
            final(extension).extra_city_objects == (match json_member(
                schema,
                "extraCityObjects"@,
            ) {
                Some(m) => if json_is_object(m) {
                    m
                } else {
                    old(extension).extra_city_objects
                },
                None => old(extension).extra_city_objects,
            }),
            final(extension).extra_root_properties == (match json_member(
                schema,
                "extraRootProperties"@,
            ) {
                Some(m) => if json_is_object(m) {
                    m
                } else {
                    old(extension).extra_root_properties
                },
                None => old(extension).extra_root_properties,
            }),
            final(extension).extra_semantic_surfaces == (match json_member(
                schema,
                "extraSemanticSurfaces"@,
            ) {
                Some(m) => if json_is_object(m) {
                    m
                } else {
                    old(extension).extra_semantic_surfaces
                },
                None => old(extension).extra_semantic_surfaces,
            }),
    {
        match member(&schema, "description") {
            Some(m) => {
                match as_text(m) {
                    Some(t) => {
                        extension.description = t;
                    },
                    None => {},
                }
            },
            None => {},
        }
        extension.extra_attributes = object_or(
            &schema,
            "extraAttributes",
            extension.extra_attributes.clone(),
        );
        extension.extra_city_objects = object_or(
            &schema,
            "extraCityObjects",
            extension.extra_city_objects.clone(),
        );
        extension.extra_root_properties = object_or(
            &schema,
            "extraRootProperties",
            extension.extra_root_properties.clone(),
        );
        extension.extra_semantic_surfaces = object_or(
            &schema,
            "extraSemanticSurfaces",
            extension.extra_semantic_surfaces.clone(),
        );
    }

    /// Checks the file: `Ok` if nothing is at fault, else the first fault.
    pub fn validate(&self) -> (r: Result<()>)
        ensures
            match self.fault() {
                Some(f) => r matches Err(CjseqError::InvalidValue { field, reason }) && field@
                    == f.0 && reason@ == f.1,
                None => r is Ok,
            },
    {
        if self.thetype != String::from_str("CityJSONExtension") {
            return invalid("thetype", "must be 'CityJSONExtension'");
        }
        if self.name.as_str().unicode_len() == 0 {
            return invalid("name", "cannot be empty");
        }
        if self.url.as_str().unicode_len() == 0 {
            return invalid("url", "cannot be empty");
        }
        if self.version.as_str().unicode_len() == 0 {
            return invalid("version", "cannot be empty");
        }
        if self.version_city_json.as_str().unicode_len() == 0 {
            return invalid("versionCityJSON", "cannot be empty");
        }
        if !is_object(&self.extra_attributes) {
            return invalid("extraAttributes", "must be a JSON object");
        }
        if !is_object(&self.extra_city_objects) {
            return invalid("extraCityObjects", "must be a JSON object");
        }
        if !is_object(&self.extra_root_properties) {
            return invalid("extraRootProperties", "must be a JSON object");
        }
        if !is_object(&self.extra_semantic_surfaces) {
            return invalid("extraSemanticSurfaces", "must be a JSON object");
        }
        Ok(())
    }

    /// The types of city objects that the extension adds: the names of the
    /// members of its additional city objects; none if these are not an
    /// object.
    pub fn get_city_object_types(&self) -> (r: Vec<String>)
        ensures
            r.deep_view() == if json_is_object(self.extra_city_objects) {
                json_keys(self.extra_city_objects)
            } else {
                Seq::empty()
            },
    {
        if is_object(&self.extra_city_objects) {
            object_keys(&self.extra_city_objects)
        } else {
            let r: Vec<String> = Vec::new();
            assert(r.deep_view() =~= Seq::<Seq<char>>::empty());
            r
        }
    }
}

} // verus!
