use cjseq::{
    Appearance, CityJSON, CityJSONFeature, CityObject, CjseqError, Geometry, GeometryType,
    MaterialObject, NameMap, NestedArray, Scalar, Tables, TextFormat, TextureObject,
    TextureReference,
};

fn point_geometry(indices: Vec<u32>) -> Geometry {
    Geometry {
        thetype: GeometryType::MultiPoint,
        lod: None,
        boundaries: NestedArray::Indices(indices),
        semantics: None,
        material: None,
        texture: None,
        template: None,
        transformation_matrix: None,
    }
}

fn feature(indices: Vec<u32>, vertices: usize) -> CityJSONFeature {
    let mut f = CityJSONFeature::new();
    f.id = "a".to_string();
    f.add_co(
        "a".to_string(),
        CityObject::new(
            "Building".to_string(),
            None,
            None,
            Some(vec![point_geometry(indices)]),
            None,
            None,
            None,
            None,
        ),
    );
    f.vertices = (0..vertices).map(|i| vec![i as i64, 0, 0]).collect();
    f
}

fn appearance_with(material: MaterialObject, texture: TextureObject) -> Appearance {
    let mut a = Appearance::new();
    a.materials = Some(vec![MaterialObject::default(), material]);
    a.textures = Some(vec![texture]);
    a
}

fn texture(border: Option<[f64; 4]>) -> TextureObject {
    TextureObject {
        texture_format: TextFormat::Jpg,
        image: "i.jpg".to_string(),
        wrap_mode: None,
        texture_type: None,
        border_color: border.map(|c| c.map(|x| Scalar::from_bits(x.to_bits()))),
    }
}

#[test]
fn a_feature_with_a_material_out_of_range_is_not_added() {
    let mut d = CityJSON::new();
    let mut f = feature(vec![0], 1);
    let bad = MaterialObject {
        name: "bad".to_string(),
        shininess: Some(Scalar::from_bits(1.5f64.to_bits())),
        ..MaterialObject::default()
    };
    f.appearance = Some(appearance_with(bad, texture(Some([0.0, 0.0, 0.0, 9.0]))));
    let before = (d.clone(), f.clone());
    assert_eq!(
        d.try_add_cjfeature(&mut f),
        Err(CjseqError::InvalidValue {
            field: "shininess".to_string(),
            reason: "must be between 0.0 and 1.0".to_string(),
        })
    );
    assert_eq!((d, f), before);
}

#[test]
fn a_feature_with_a_texture_out_of_range_is_not_added() {
    let mut d = CityJSON::new();
    let mut f = feature(vec![0], 1);
    f.appearance =
        Some(appearance_with(MaterialObject::default(), texture(Some([0.0, 0.0, 0.0, 9.0]))));
    assert_eq!(
        d.try_add_cjfeature(&mut f),
        Err(CjseqError::InvalidValue {
            field: "border_color".to_string(),
            reason: "border_color[3] must be between 0.0 and 1.0".to_string(),
        })
    );
    assert!(d.vertices.is_empty());
}

#[test]
fn a_feature_whose_indices_cannot_be_raised_is_not_added() {
    let mut d = CityJSON::new();
    d.vertices = vec![vec![0, 0, 0], vec![1, 1, 1]];
    let mut f = feature(vec![3, u32::MAX - 1], 1);
    assert_eq!(
        d.check_merge(&f),
        Err(CjseqError::InvalidValue {
            field: "boundaries".to_string(),
            reason: "vertex index too large".to_string(),
        })
    );
    assert!(d.try_add_cjfeature(&mut f).is_err());
    assert_eq!(d.vertices.len(), 2);
    let mut g = feature(vec![3, u32::MAX - 2], 1);
    assert_eq!(d.try_add_cjfeature(&mut g), Ok(()));
    assert_eq!(d.vertices.len(), 3);
    assert_eq!(
        d.city_objects.get(&"a".to_string()).unwrap().geometry.as_ref().unwrap()[0].boundaries,
        NestedArray::Indices(vec![5, u32::MAX])
    );
}

#[test]
fn texture_vertices_are_counted_and_need_room() {
    let d = CityJSON::new();
    let mut f = feature(vec![0], 1);
    let mut themes = NameMap::new();
    themes.insert(
        "t".to_string(),
        TextureReference {
            values: NestedArray::Nested(vec![NestedArray::Indices(vec![
                Some(0),
                Some(4),
                None,
                Some(5),
            ])]),
        },
    );
    f.city_objects.entries[0].1.geometry.as_mut().unwrap()[0].texture = Some(themes);
    let mut a = Appearance::new();
    a.vertices_texture = Some(vec![[Scalar::from_bits(0), Scalar::from_bits(0)]]);
    f.appearance = Some(a);
    let mut tables = Tables::new();
    assert_eq!(d.check_merge(&f), Ok(()));
    assert_eq!(f.city_objects.entries[0].1.geometry.as_ref().unwrap()[0].uv_count(), 2);
    assert!(tables.has_room(2, usize::MAX - 2));
    assert!(!tables.has_room(2, usize::MAX - 1));
    assert!(tables.has_room(usize::MAX, 0));
    assert!(!tables.has_room(usize::MAX, 1));
    tables.texture_vertices.record(7, 0);
    assert!(!tables.has_room(2, usize::MAX - 2));
    assert!(tables.has_room(2, usize::MAX - 3));
}

#[test]
fn geometries_tell_whether_they_nest_as_their_type_asks() {
    let solid = NestedArray::Nested(vec![NestedArray::Nested(vec![NestedArray::Nested(vec![
        NestedArray::Indices(vec![0, 1, 2]),
    ])])]);
    assert!(solid.has_depth(3));
    assert!(!solid.has_depth(2));
    assert!(!solid.has_depth(4));
    let mut g = point_geometry(vec![1, 2]);
    assert!(g.is_well_nested());
    g.thetype = GeometryType::MultiLineString;
    assert!(!g.is_well_nested());
    g.thetype = GeometryType::GeometryInstance;
    assert!(g.is_well_nested());
    g.thetype = GeometryType::Solid;
    g.boundaries = solid;
    assert!(g.is_well_nested());
    g.offset_geometry_boundaries(4);
    assert!(g.is_well_nested());
    assert_eq!(GeometryType::CompositeSolid.boundary_depth(), Some(4));
    assert_eq!(GeometryType::MultiSurface.boundary_depth(), Some(2));
    let mixed: NestedArray<u32> =
        NestedArray::Nested(vec![NestedArray::Indices(vec![]), NestedArray::Nested(vec![])]);
    assert!(!mixed.has_depth(1));
    assert!(!mixed.has_depth(2));
    let hollow: NestedArray<u32> = NestedArray::Nested(vec![]);
    assert!(hollow.has_depth(1) && hollow.has_depth(5) && !hollow.has_depth(0));
}

#[test]
fn empty_copy_keeps_all_but_objects_vertices_and_appearance() {
    let mut d = CityJSON::new();
    d.vertices = vec![vec![1, 2, 3]];
    d.version = "1.1".to_string();
    d.appearance = Some(Appearance::new());
    d.add_co(
        "k".to_string(),
        CityObject::new("Building".to_string(), None, None, None, None, None, None, None),
    );
    d.sort_cjfeatures(cjseq::SortingStrategy::Random);
    let e = d.get_empty_copy();
    assert!(e.vertices.is_empty() && e.city_objects.is_empty() && e.sorted_ids.is_empty());
    assert_eq!(e.appearance, None);
    assert_eq!(e.version, "1.1");
    assert_eq!(e.transform, d.transform);
}

#[test]
fn boundaries_tell_whether_they_stay_below_a_bound() {
    let b: NestedArray<u32> = NestedArray::Nested(vec![
        NestedArray::Indices(vec![1, 2]),
        NestedArray::Nested(vec![NestedArray::Indices(vec![7]), NestedArray::Indices(vec![])]),
    ]);
    assert!(b.is_below(8));
    assert!(!b.is_below(7));
    assert!(!b.is_below(0));
    let none: NestedArray<u32> = NestedArray::Nested(vec![NestedArray::Indices(vec![])]);
    assert!(none.is_below(0));
    let top: NestedArray<u32> = NestedArray::Indices(vec![u32::MAX]);
    assert!(top.is_below(u32::MAX as u64 + 1));
    assert!(!top.is_below(u32::MAX as u64));
}

#[test]
fn references_through_the_second_table_are_counted() {
    let v: NestedArray<Option<usize>> = NestedArray::Nested(vec![
        NestedArray::Indices(vec![Some(3), Some(3), None, Some(4)]),
        NestedArray::Indices(vec![None, Some(1)]),
        NestedArray::Indices(vec![Some(9)]),
        NestedArray::Indices(vec![]),
    ]);
    assert_eq!(v.rest_count(true), 3);
    assert_eq!(v.rest_count(false), 0);
}

#[test]
fn documents_tell_whether_their_vertices_can_be_moved() {
    let mut d = CityJSON::new();
    assert!(d.has_triples());
    assert!(d.is_movable());
    d.vertices = vec![vec![1, 2, 3], vec![4, 5, 6, 7]];
    assert!(d.has_triples());
    assert!(d.is_movable());
    d.vertices.push(vec![1, 2]);
    assert!(!d.has_triples());
    assert!(!d.is_movable());
    d.vertices = vec![vec![i64::MIN, 0, 0], vec![0, 0, 0]];
    assert!(!d.is_movable());
    d.vertices = vec![vec![i64::MIN, 0, 0], vec![-1, 0, 0]];
    assert!(d.is_movable());
    assert_eq!(d.move_to_origin(), [i64::MIN, 0, 0]);
    assert_eq!(d.vertices, vec![vec![0, 0, 0], vec![i64::MAX, 0, 0]]);
}
