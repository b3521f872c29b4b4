//! Splitting a city model into a stream of self-contained features, merging
//! such a stream back into one model, and the index renumbering that both
//! rest on.

pub mod appearance;
pub mod cityjson;
pub mod cityobject;
pub mod error;
pub mod extension;
pub mod filter;
pub mod geometry;
pub mod json;
pub mod jsonarray;
pub mod laws;
pub mod merge;
pub mod metadata;
pub mod namemap;
pub mod nested;
pub mod obj;
pub mod remap;
pub mod roundtrip;
pub mod scalar;
pub mod tables;
pub mod text;
pub mod values;

pub use appearance::{
    Appearance, MaterialObject, TextFormat, TextType, TextureObject, Validate, WrapMode,
};
pub use cityjson::{CityJSON, CityJSONFeature, SortingStrategy};
pub use cityobject::{CityObject, GeographicalExtent};
pub use error::{CjseqError, Result};
pub use extension::ExtensionFile;
pub use geometry::{
    Geometry, GeometryType, MaterialReference, MaterialValues, Semantics, SemanticsSurface,
    SemanticsValues, TextureReference, TextureValues,
};
pub use jsonarray::{nested_array_to_value, node_of, parse_nested_array, value_of, JsonIndex, JsonNode};
pub use merge::cjseq_to_cj;
pub use metadata::{
    Address, Extension, GeometryTemplates, Metadata, PointOfContact, ReferenceSystem, Transform,
};
pub use namemap::NameMap;
pub use nested::{Boundaries, NestedArray};
pub use remap::IdRemap;
pub use scalar::Scalar;
pub use tables::{Motion, Plan, Tables};
