use cjseq::{
    cjseq_to_cj, Appearance, Boundaries, CityJSON, CityJSONFeature, CityObject, CjseqError, Geometry,
    GeometryTemplates, GeometryType, MaterialObject, MaterialReference, NameMap, NestedArray,
    Scalar, SortingStrategy, Tables, TextFormat, TextureObject, TextureReference,
};

fn s(x: f64) -> Scalar {
    Scalar::from_bits(x.to_bits())
}

fn material(name: &str) -> MaterialObject {
    MaterialObject { name: name.to_string(), ..MaterialObject::default() }
}

fn texture(image: &str) -> TextureObject {
    TextureObject {
        texture_format: TextFormat::Png,
        image: image.to_string(),
        wrap_mode: None,
        texture_type: None,
        border_color: None,
    }
}

fn geometry(thetype: GeometryType, boundaries: Boundaries) -> Geometry {
    Geometry {
        thetype,
        lod: Some("2".to_string()),
        boundaries,
        semantics: None,
        material: None,
        texture: None,
        template: None,
        transformation_matrix: None,
    }
}

fn themed<V>(theme: &str, value: V) -> Option<NameMap<V>> {
    let mut m = NameMap::new();
    m.insert(theme.to_string(), value);
    Some(m)
}

fn object(
    thetype: &str,
    geometry: Vec<Geometry>,
    children: Option<Vec<&str>>,
    parents: Option<Vec<&str>>,
) -> CityObject {
    CityObject::new(
        thetype.to_string(),
        None,
        None,
        Some(geometry),
        children.map(|c| c.into_iter().map(|x| x.to_string()).collect()),
        None,
        parents.map(|c| c.into_iter().map(|x| x.to_string()).collect()),
        None,
    )
}

fn surface(ring: Vec<u32>) -> Boundaries {
    NestedArray::Nested(vec![NestedArray::Nested(vec![NestedArray::Indices(ring)])])
}

fn uv(i: usize) -> [Scalar; 2] {
    [s(i as f64 / 10.0), s(1.0 - i as f64 / 10.0)]
}

fn sample() -> CityJSON {
    let mut d = CityJSON::new();
    d.vertices = vec![
        vec![0, 0, 0],
        vec![1, 0, 0],
        vec![1, 1, 0],
        vec![0, 1, 0],
        vec![5, 5, 5],
        vec![5, 5, 5],
    ];
    let mut g1 = geometry(GeometryType::MultiSurface, surface(vec![3, 2, 1]));
    g1.material = themed("theme", MaterialReference { values: None, value: Some(1) });
    d.city_objects.insert("b1".to_string(), object("Building", vec![g1], Some(vec!["b1-part"]), None));
    let mut g2 = geometry(GeometryType::MultiPoint, NestedArray::Indices(vec![5, 4, 5]));
    g2.material = themed(
        "theme",
        MaterialReference { values: Some(NestedArray::Indices(vec![Some(2), None])), value: None },
    );
    d.city_objects.insert("b2".to_string(), object("Building", vec![g2], None, Some(vec![])));
    let mut g3 = geometry(
        GeometryType::MultiLineString,
        NestedArray::Nested(vec![NestedArray::Indices(vec![0, 3]), NestedArray::Indices(vec![4])]),
    );
    g3.texture = themed(
        "t",
        TextureReference {
            values: NestedArray::Nested(vec![NestedArray::Nested(vec![NestedArray::Indices(vec![
                Some(1),
                Some(3),
                Some(0),
            ])])]),
        },
    );
    d.city_objects
        .insert("b1-part".to_string(), object("BuildingPart", vec![g3], None, Some(vec!["b1"])));
    d.appearance = Some(Appearance {
        materials: Some(vec![material("a"), material("b"), material("c")]),
        textures: Some(vec![texture("x.png"), texture("y.png")]),
        vertices_texture: Some(vec![uv(0), uv(1), uv(2), uv(3)]),
        default_theme_texture: Some("t".to_string()),
        default_theme_material: None,
    });
    d.sort_cjfeatures(SortingStrategy::Random);
    d
}

fn boundaries_of(f: &NameMap<CityObject>, key: &str) -> Boundaries {
    f.get(&key.to_string()).unwrap().geometry.as_ref().unwrap()[0].boundaries.clone()
}

fn leaves(b: &Boundaries, out: &mut Vec<u32>) {
    match b {
        NestedArray::Indices(v) => out.extend(v.iter().copied()),
        NestedArray::Nested(subs) => {
            for x in subs {
                leaves(x, out);
            }
        }
    }
}

fn all_leaves(objects: &NameMap<CityObject>) -> Vec<u32> {
    let mut out = Vec::new();
    for (_, o) in &objects.entries {
        if let Some(gs) = &o.geometry {
            for g in gs {
                leaves(&g.boundaries, &mut out);
            }
        }
    }
    out
}

#[test]
fn empty() {
    let mut cjj = CityJSON::new();
    cjj.transform.scale = vec![s(0.001), s(0.001), s(0.001)];
    cjj.transform.translate = vec![s(-1.0), s(-1.0), s(0.0)];
    cjj.metadata = Some(cjseq::Metadata {
        geographical_extent: Some([s(-1.0), s(-1.0), s(0.0), s(1.0), s(1.0), s(1.0)]),
        identifier: None,
        point_of_contact: None,
        reference_date: None,
        reference_system: None,
        title: None,
    });
    cjj.sort_cjfeatures(SortingStrategy::Random);
    assert!(cjj.number_of_city_objects() == 0);
    assert!(cjj.get_cjfeature(0).is_none());
}

#[test]
fn new_document_is_of_the_current_version() {
    let d = CityJSON::new();
    assert_eq!(d.thetype, "CityJSON");
    assert_eq!(d.version, "2.0");
    assert_eq!(d.transform.scale, vec![s(1.0), s(1.0), s(1.0)]);
    assert_eq!(d.transform.translate, vec![s(0.0), s(0.0), s(0.0)]);
    assert!(d.check_version().is_ok());
    let f = CityJSONFeature::new();
    assert_eq!(f.thetype, "CityJSONFeature");
    assert_eq!(f.id, "");
}

#[test]
fn version_check_rejects_other_documents() {
    let mut d = CityJSON::new();
    d.version = "1.1".to_string();
    assert!(d.check_version().is_ok());
    d.version = "1.0".to_string();
    assert_eq!(
        d.check_version(),
        Err(CjseqError::CityJsonError("Input file not CityJSON v1.1 nor v2.0.".to_string()))
    );
    d.thetype = "CityJSONFeature".to_string();
    assert_eq!(
        d.check_version(),
        Err(CjseqError::CityJsonError("Input file not CityJSON.".to_string()))
    );
}

#[test]
fn counts_and_orders_the_objects_without_parent() {
    let mut d = sample();
    assert_eq!(d.number_of_city_objects(), 2);
    assert_eq!(d.sorted_ids, vec!["b1".to_string(), "b2".to_string()]);
    d.city_objects.insert("a0".to_string(), object("Bridge", vec![], None, None));
    d.city_objects.insert("B9".to_string(), object("Bridge", vec![], None, None));
    d.sort_cjfeatures(SortingStrategy::Random);
    assert_eq!(d.sorted_ids, vec!["b1", "b2", "a0", "B9"]);
    d.sort_cjfeatures(SortingStrategy::Alphabetical);
    assert_eq!(d.sorted_ids, vec!["B9", "a0", "b1", "b2"]);
    assert_eq!(d.number_of_city_objects(), 4);
}

#[test]
fn split_renumbers_from_zero_in_document_order() {
    let d = sample();
    let f0 = d.get_cjfeature(0).unwrap();
    assert_eq!(f0.thetype, "CityJSONFeature");
    assert_eq!(f0.id, "b1");
    assert_eq!(f0.city_objects.len(), 2);
    assert_eq!(f0.city_objects.entries[0].0, "b1");
    assert_eq!(f0.city_objects.entries[1].0, "b1-part");
    assert_eq!(boundaries_of(&f0.city_objects, "b1"), surface(vec![0, 1, 2]));
    assert_eq!(
        boundaries_of(&f0.city_objects, "b1-part"),
        NestedArray::Nested(vec![NestedArray::Indices(vec![3, 0]), NestedArray::Indices(vec![4])])
    );
    assert_eq!(
        f0.vertices,
        vec![vec![0, 1, 0], vec![1, 1, 0], vec![1, 0, 0], vec![0, 0, 0], vec![5, 5, 5]]
    );
    let b1 = f0.city_objects.get(&"b1".to_string()).unwrap();
    let m = &b1.geometry.as_ref().unwrap()[0].material.as_ref().unwrap().entries[0];
    assert_eq!(m.0, "theme");
    assert_eq!(m.1.value, Some(0));
    let part = f0.city_objects.get(&"b1-part".to_string()).unwrap();
    let t = &part.geometry.as_ref().unwrap()[0].texture.as_ref().unwrap().entries[0];
    assert_eq!(
        t.1.values,
        NestedArray::Nested(vec![NestedArray::Nested(vec![NestedArray::Indices(vec![
            Some(0),
            Some(0),
            Some(1),
        ])])])
    );
    let a = f0.appearance.as_ref().unwrap();
    assert_eq!(a.materials, Some(vec![material("b")]));
    assert_eq!(a.textures, Some(vec![texture("y.png")]));
    assert_eq!(a.vertices_texture, Some(vec![uv(3), uv(0)]));
    assert_eq!(a.default_theme_texture, Some("t".to_string()));

    let f1 = d.get_cjfeature(1).unwrap();
    assert_eq!(f1.id, "b2");
    assert_eq!(boundaries_of(&f1.city_objects, "b2"), NestedArray::Indices(vec![0, 1, 0]));
    assert_eq!(f1.vertices, vec![vec![5, 5, 5], vec![5, 5, 5]]);
    let a = f1.appearance.as_ref().unwrap();
    assert_eq!(a.materials, Some(vec![material("c")]));
    assert_eq!(a.textures, Some(vec![]));
    assert_eq!(a.vertices_texture, Some(vec![]));
    let g = &f1.city_objects.get(&"b2".to_string()).unwrap().geometry.as_ref().unwrap()[0];
    assert_eq!(
        g.material.as_ref().unwrap().entries[0].1.values,
        Some(NestedArray::Indices(vec![Some(0), None]))
    );
    assert!(d.get_cjfeature(2).is_none());
    assert_eq!(d.split_feature(2), Ok(None));
}

#[test]
fn split_leaves_the_document_as_it_was() {
    let d = sample();
    let before = d.clone();
    let _ = d.split_feature(0);
    assert_eq!(d, before);
}

#[test]
fn after_split_every_index_is_the_place_of_a_vertex() {
    let d = sample();
    for i in 0..2 {
        let f = d.get_cjfeature(i).unwrap();
        for x in all_leaves(&f.city_objects) {
            assert!((x as usize) < f.vertices.len());
        }
    }
}

#[test]
fn split_keeps_the_vertex_of_each_index() {
    let d = sample();
    let f = d.get_cjfeature(0).unwrap();
    let mut before = Vec::new();
    leaves(&boundaries_of(&d.city_objects, "b1-part"), &mut before);
    let mut after = Vec::new();
    leaves(&boundaries_of(&f.city_objects, "b1-part"), &mut after);
    assert_eq!(before.len(), after.len());
    for (x, y) in before.iter().zip(after.iter()) {
        assert_eq!(d.vertices[*x as usize], f.vertices[*y as usize]);
    }
}

#[test]
fn slice_holds_what_the_feature_refers_to_and_no_more() {
    let d = sample();
    let f = d.get_cjfeature(0).unwrap();
    let sliced = f.appearance.unwrap().materials.unwrap();
    let all = d.appearance.as_ref().unwrap().materials.as_ref().unwrap();
    assert_eq!(sliced, vec![all[1].clone()]);
    assert!(!sliced.contains(&all[0]) && !sliced.contains(&all[2]));
}

#[test]
fn split_reports_a_child_that_is_absent() {
    let mut d = sample();
    d.city_objects.entries.retain(|e| e.0 != "b1-part");
    assert_eq!(d.split_feature(0), Err(CjseqError::MissingObject("b1-part".to_string())));
    assert!(d.split_feature(1).is_ok());
}

#[test]
fn split_reports_an_index_without_a_vertex() {
    let mut d = sample();
    d.vertices.truncate(5);
    assert_eq!(
        d.split_feature(1),
        Err(CjseqError::InvalidValue {
            field: "boundaries".to_string(),
            reason: "vertex index out of range".to_string(),
        })
    );
    assert!(d.split_feature(0).is_ok());
}

#[test]
fn split_reports_a_reference_without_an_item() {
    let mut d = sample();
    d.appearance.as_mut().unwrap().materials = Some(vec![material("a"), material("b")]);
    assert_eq!(
        d.split_feature(1),
        Err(CjseqError::InvalidValue {
            field: "appearance".to_string(),
            reason: "index out of range".to_string(),
        })
    );
    d.appearance.as_mut().unwrap().materials = None;
    let f = d.split_feature(1).unwrap().unwrap();
    assert_eq!(f.appearance.unwrap().materials, None);
}

#[test]
fn split_leaves_out_the_children_of_children() {
    let mut d = sample();
    let mut part = d.city_objects.get(&"b1-part".to_string()).unwrap().clone();
    part.children = Some(vec!["deep".to_string()]);
    d.city_objects.insert("b1-part".to_string(), part);
    d.city_objects.insert(
        "deep".to_string(),
        object("BuildingInstallation", vec![], None, Some(vec!["b1-part"])),
    );
    let f = d.get_cjfeature(0).unwrap();
    assert_eq!(f.city_objects.len(), 2);
    assert!(f.city_objects.get(&"deep".to_string()).is_none());
}

#[test]
fn header_has_neither_objects_nor_vertices() {
    let d = sample();
    let h = d.get_metadata();
    assert_eq!(h.number_of_city_objects(), 0);
    assert!(h.vertices.is_empty());
    assert!(h.city_objects.is_empty());
    assert_eq!(h.appearance, None);
    assert_eq!(h.transform, d.transform);
    assert_eq!(h.version, d.version);
    assert!(h.sorted_ids.is_empty());
}

#[test]
fn header_slices_the_appearance_for_the_templates() {
    let mut d = sample();
    let mut g = geometry(GeometryType::MultiSurface, surface(vec![9, 8, 7]));
    g.material = themed("m", MaterialReference { values: None, value: Some(2) });
    d.geometry_templates = Some(GeometryTemplates {
        templates: vec![g],
        vertices_templates: vec![[s(0.0), s(0.5), s(1.0)]],
    });
    let h = d.metadata_header().unwrap();
    let t = h.geometry_templates.as_ref().unwrap();
    assert_eq!(t.templates[0].boundaries, surface(vec![9, 8, 7]));
    assert_eq!(t.templates[0].material.as_ref().unwrap().entries[0].1.value, Some(0));
    assert_eq!(t.vertices_templates, vec![[s(0.0), s(0.5), s(1.0)]]);
    let a = h.appearance.unwrap();
    assert_eq!(a.materials, Some(vec![material("c")]));
    assert_eq!(a.textures, Some(vec![]));

    d.geometry_templates.as_mut().unwrap().templates[0].material =
        themed("m", MaterialReference { values: None, value: Some(3) });
    assert_eq!(
        d.metadata_header(),
        Err(CjseqError::InvalidValue {
            field: "appearance".to_string(),
            reason: "index out of range".to_string(),
        })
    );
}

fn merged_sample() -> CityJSON {
    let d = sample();
    let mut m = d.get_metadata();
    let mut f0 = d.get_cjfeature(0).unwrap();
    let mut f1 = d.get_cjfeature(1).unwrap();
    m.add_cjfeature(&mut f0);
    m.add_cjfeature(&mut f1);
    m
}

#[test]
fn merge_shifts_indices_and_joins_the_appearance() {
    let d = sample();
    let mut m = d.get_metadata();
    let mut f0 = d.get_cjfeature(0).unwrap();
    m.add_cjfeature(&mut f0);
    assert!(f0.vertices.is_empty());
    assert_eq!(m.vertices.len(), 5);
    assert_eq!(m.sorted_ids, vec!["b1"]);
    assert_eq!(m.number_of_city_objects(), 1);
    assert_eq!(boundaries_of(&m.city_objects, "b1"), surface(vec![0, 1, 2]));
    let part = m.city_objects.get(&"b1-part".to_string()).unwrap();
    let t = &part.geometry.as_ref().unwrap()[0].texture.as_ref().unwrap().entries[0];
    assert_eq!(
        t.1.values,
        NestedArray::Nested(vec![NestedArray::Nested(vec![NestedArray::Indices(vec![
            Some(0),
            Some(0),
            Some(1),
        ])])])
    );
    assert_eq!(f0.city_objects.get(&"b1-part".to_string()).unwrap(), part);

    let mut f1 = d.get_cjfeature(1).unwrap();
    m.add_cjfeature(&mut f1);
    assert_eq!(m.vertices.len(), 7);
    assert_eq!(m.vertices[5], vec![5, 5, 5]);
    assert_eq!(m.sorted_ids, vec!["b1", "b2"]);
    assert_eq!(m.number_of_city_objects(), 2);
    assert_eq!(boundaries_of(&m.city_objects, "b2"), NestedArray::Indices(vec![5, 6, 5]));
    let a = m.appearance.as_ref().unwrap();
    assert_eq!(a.materials, Some(vec![material("b"), material("c")]));
    assert_eq!(a.textures, Some(vec![texture("y.png")]));
    assert_eq!(a.vertices_texture, Some(vec![uv(3), uv(0)]));
    let g = &m.city_objects.get(&"b2".to_string()).unwrap().geometry.as_ref().unwrap()[0];
    assert_eq!(
        g.material.as_ref().unwrap().entries[0].1.values,
        Some(NestedArray::Indices(vec![Some(1), None]))
    );
}

#[test]
fn merge_finds_a_material_that_is_there_by_its_name() {
    let d = sample();
    let mut m = d.get_metadata();
    let mut f0 = d.get_cjfeature(0).unwrap();
    let mut again = f0.clone();
    again.id = "b1-again".to_string();
    m.add_cjfeature(&mut f0);
    m.add_cjfeature(&mut again);
    assert_eq!(m.appearance.as_ref().unwrap().materials, Some(vec![material("b")]));
    assert_eq!(m.appearance.as_ref().unwrap().textures, Some(vec![texture("y.png")]));
    assert_eq!(
        m.appearance.as_ref().unwrap().vertices_texture,
        Some(vec![uv(3), uv(0), uv(3), uv(0)])
    );
    assert_eq!(m.vertices.len(), 10);
    assert_eq!(boundaries_of(&m.city_objects, "b1"), surface(vec![5, 6, 7]));
    assert_eq!(m.city_objects.len(), 2);
    let part = m.city_objects.get(&"b1-part".to_string()).unwrap();
    assert_eq!(
        part.geometry.as_ref().unwrap()[0].texture.as_ref().unwrap().entries[0].1.values,
        NestedArray::Nested(vec![NestedArray::Nested(vec![NestedArray::Indices(vec![
            Some(0),
            Some(2),
            Some(3),
        ])])])
    );
}

#[test]
fn merge_with_tables_of_the_caller_keeps_what_they_record() {
    let d = sample();
    let mut m = d.get_metadata();
    let mut tables = Tables::new();
    let mut f0 = d.get_cjfeature(0).unwrap();
    m.merge_feature(&mut f0, &mut tables);
    assert_eq!(tables.materials.get(0), Some(0));
    assert_eq!(tables.textures.get(0), Some(0));
    assert_eq!(tables.texture_vertices.get(0), Some(0));
    assert_eq!(tables.texture_vertices.get(1), Some(1));
    assert_eq!(tables.texture_vertices.len(), 2);
    assert_eq!(tables.vertices.len(), 0);
    let mut f1 = d.get_cjfeature(1).unwrap();
    f1.appearance.as_mut().unwrap().vertices_texture = Some(vec![uv(7)]);
    m.merge_feature(&mut f1, &mut tables);
    assert_eq!(tables.texture_vertices.get(0), Some(2));
    assert_eq!(tables.texture_vertices.get(1), Some(1));
    assert_eq!(tables.materials.get(0), Some(1));
}

#[test]
fn after_merge_every_index_is_the_place_of_a_vertex() {
    let mut m = merged_sample();
    for x in all_leaves(&m.city_objects) {
        assert!((x as usize) < m.vertices.len());
    }
    m.remove_duplicate_vertices();
    for x in all_leaves(&m.city_objects) {
        assert!((x as usize) < m.vertices.len());
    }
}

#[test]
fn dedup_keeps_the_first_of_equal_vertices() {
    let mut m = merged_sample();
    m.remove_duplicate_vertices();
    assert_eq!(
        m.vertices,
        vec![vec![0, 1, 0], vec![1, 1, 0], vec![1, 0, 0], vec![0, 0, 0], vec![5, 5, 5]]
    );
    assert_eq!(boundaries_of(&m.city_objects, "b1"), surface(vec![0, 1, 2]));
    assert_eq!(boundaries_of(&m.city_objects, "b2"), NestedArray::Indices(vec![4, 4, 4]));
    assert_eq!(
        boundaries_of(&m.city_objects, "b1-part"),
        NestedArray::Nested(vec![NestedArray::Indices(vec![3, 0]), NestedArray::Indices(vec![4])])
    );
}

#[test]
fn dedup_twice_is_dedup_once() {
    let mut once = merged_sample();
    once.remove_duplicate_vertices();
    let mut twice = once.clone();
    twice.remove_duplicate_vertices();
    assert_eq!(twice.vertices, once.vertices);
    assert_eq!(twice.number_of_city_objects(), once.number_of_city_objects());
    assert_eq!(twice, once);
}

#[test]
fn dedup_tells_vertices_apart_by_all_three_coordinates() {
    let mut d = CityJSON::new();
    d.vertices = vec![
        vec![1, 2, 3],
        vec![1, 2, 4],
        vec![1, 3, 3],
        vec![2, 2, 3],
        vec![-1, 2, 3],
        vec![1, 2, 3],
        vec![i64::MIN, i64::MAX, 0],
        vec![i64::MIN, i64::MAX, 0],
    ];
    d.city_objects.insert(
        "o".to_string(),
        object(
            "Building",
            vec![geometry(GeometryType::MultiPoint, NestedArray::Indices(vec![7, 6, 5, 4, 3, 2, 1, 0]))],
            None,
            None,
        ),
    );
    d.remove_duplicate_vertices();
    assert_eq!(d.vertices.len(), 6);
    assert_eq!(d.vertices[5], vec![i64::MIN, i64::MAX, 0]);
    assert_eq!(
        boundaries_of(&d.city_objects, "o"),
        NestedArray::Indices(vec![5, 5, 0, 4, 3, 2, 1, 0])
    );
}

fn texture_vertices_of(d: &CityJSON, key: &str) -> Vec<[Scalar; 2]> {
    let uvs = d.appearance.as_ref().unwrap().vertices_texture.as_ref().unwrap();
    let o = d.city_objects.get(&key.to_string()).unwrap();
    let mut out = Vec::new();
    for g in o.geometry.as_ref().unwrap() {
        if let Some(themes) = &g.texture {
            for (_, t) in &themes.entries {
                let mut stack = vec![&t.values];
                while let Some(x) = stack.pop() {
                    match x {
                        NestedArray::Indices(v) => {
                            for r in v.iter().skip(1).flatten() {
                                out.push(uvs[*r]);
                            }
                        }
                        NestedArray::Nested(subs) => stack.extend(subs.iter().rev()),
                    }
                }
            }
        }
    }
    out
}

#[test]
fn round_trip_gives_back_the_appearance_of_each_object() {
    let d = sample();
    let mut m = merged_sample();
    m.remove_duplicate_vertices();
    assert_eq!(texture_vertices_of(&m, "b1-part"), texture_vertices_of(&d, "b1-part"));
    assert_eq!(texture_vertices_of(&d, "b1-part"), vec![uv(3), uv(0)]);
    let name_of = |doc: &CityJSON, key: &str| {
        let o = doc.city_objects.get(&key.to_string()).unwrap();
        let r = &o.geometry.as_ref().unwrap()[0].material.as_ref().unwrap().entries[0].1;
        let i = r.value.or_else(|| match r.values.as_ref().unwrap() {
            NestedArray::Indices(v) => v[0],
            NestedArray::Nested(_) => None,
        });
        doc.appearance.as_ref().unwrap().materials.as_ref().unwrap()[i.unwrap()].name.clone()
    };
    assert_eq!(name_of(&m, "b1"), name_of(&d, "b1"));
    assert_eq!(name_of(&m, "b2"), name_of(&d, "b2"));
    assert_eq!(name_of(&d, "b2"), "c");
}

#[test]
fn round_trip_gives_back_the_vertices_of_each_object() {
    let d = sample();
    let mut m = merged_sample();
    m.remove_duplicate_vertices();
    let mins = m.move_to_origin();
    for key in ["b1", "b2", "b1-part"] {
        let mut before = Vec::new();
        leaves(&boundaries_of(&d.city_objects, key), &mut before);
        let mut after = Vec::new();
        leaves(&boundaries_of(&m.city_objects, key), &mut after);
        assert_eq!(before.len(), after.len());
        for (x, y) in before.iter().zip(after.iter()) {
            let v = &d.vertices[*x as usize];
            let w = &m.vertices[*y as usize];
            assert_eq!(vec![v[0] - mins[0], v[1] - mins[1], v[2] - mins[2]], *w);
        }
    }
    assert_eq!(m.number_of_city_objects(), d.number_of_city_objects());
}

fn nesting(b: &Boundaries) -> String {
    match b {
        NestedArray::Indices(v) => format!("{}", v.len()),
        NestedArray::Nested(subs) => {
            let inner: Vec<String> = subs.iter().map(nesting).collect();
            format!("[{}]", inner.join(","))
        }
    }
}

#[test]
fn joining_gives_back_the_names_the_nesting_and_the_vertices() {
    let d = sample();
    let m = merged_sample();
    let mut before: Vec<String> = d.city_objects.entries.iter().map(|e| e.0.clone()).collect();
    let mut after: Vec<String> = m.city_objects.entries.iter().map(|e| e.0.clone()).collect();
    before.sort();
    after.sort();
    assert_eq!(before, after);
    assert_eq!(after, vec!["b1".to_string(), "b1-part".to_string(), "b2".to_string()]);
    for key in ["b1", "b2", "b1-part"] {
        let old = boundaries_of(&d.city_objects, key);
        let new = boundaries_of(&m.city_objects, key);
        assert_eq!(nesting(&new), nesting(&old));
        let mut x = Vec::new();
        leaves(&old, &mut x);
        let mut y = Vec::new();
        leaves(&new, &mut y);
        let was: Vec<&Vec<i64>> = x.iter().map(|i| &d.vertices[*i as usize]).collect();
        let is: Vec<&Vec<i64>> = y.iter().map(|i| &m.vertices[*i as usize]).collect();
        assert_eq!(was, is);
    }
    assert_eq!(nesting(&boundaries_of(&m.city_objects, "b1-part")), "[2,1]");
    assert_eq!(nesting(&boundaries_of(&m.city_objects, "b2")), "3");
}

#[test]
fn slice_has_one_item_for_each_different_reference() {
    let d = sample();
    let f = d.get_cjfeature(0).unwrap();
    let a = f.appearance.as_ref().unwrap();
    assert_eq!(a.materials.as_ref().unwrap().len(), 1);
    assert_eq!(a.textures.as_ref().unwrap().len(), 1);
    let g = d.get_cjfeature(1).unwrap();
    let b = g.appearance.as_ref().unwrap();
    assert_eq!(b.materials.as_ref().unwrap().len(), 1);
    assert_eq!(b.textures.as_ref().unwrap().len(), 0);
}

#[test]
fn move_to_origin_moves_the_least_corner_to_zero() {
    let mut d = CityJSON::new();
    d.vertices = vec![vec![10, 20, 30], vec![12, 18, 31], vec![11, 19, 35, 99]];
    let before = d.transform.clone();
    let mins = d.move_to_origin();
    assert_eq!(mins, [10, 18, 30]);
    assert_eq!(d.vertices, vec![vec![0, 2, 0], vec![2, 0, 1], vec![1, 1, 5]]);
    assert_eq!(d.transform, before);
    let mut e = CityJSON::new();
    assert_eq!(e.move_to_origin(), [i64::MAX, i64::MAX, i64::MAX]);
    assert!(e.vertices.is_empty());
    let mut c = CityJSON::new();
    c.vertices = vec![vec![10, 20, 30], vec![12, 20, 35]];
    c.transform.scale = vec![s(2.0), s(2.0), s(2.0)];
    c.transform.translate = vec![s(1.0), s(1.0), s(1.0)];
    assert_eq!(c.move_to_origin(), [10, 20, 30]);
    assert_eq!(c.vertices, vec![vec![0, 0, 0], vec![2, 0, 5]]);
    assert_eq!(c.transform.scale, vec![s(2.0), s(2.0), s(2.0)]);
    assert_eq!(c.transform.translate, vec![s(1.0), s(1.0), s(1.0)]);
}

#[test]
fn documents_add_to_their_appearance() {
    let mut d = CityJSON::new();
    assert_eq!(d.add_material(material("a")), 0);
    assert_eq!(d.add_material(material("b")), 1);
    assert_eq!(d.add_material(material("a")), 0);
    assert_eq!(d.add_texture(texture("x.png")), 0);
    assert_eq!(d.add_texture(texture("x.png")), 0);
    d.add_vertices_texture(vec![uv(1)]);
    d.add_vertices_texture(vec![uv(2)]);
    let a = d.appearance.as_ref().unwrap();
    assert_eq!(a.materials.as_ref().unwrap().len(), 2);
    assert_eq!(a.textures.as_ref().unwrap().len(), 1);
    assert_eq!(a.vertices_texture, Some(vec![uv(1), uv(2)]));
    d.add_co("k".to_string(), object("Building", vec![], None, None));
    let mut v = vec![vec![1, 2, 3]];
    d.add_vertices(&mut v);
    assert!(v.is_empty());
    assert_eq!(d.vertices, vec![vec![1, 2, 3]]);
    assert_eq!(d.city_objects.len(), 1);
}

#[test]
fn cat_gives_the_header_and_every_feature() {
    let mut d = sample();
    let (h, fs) = d.cat(SortingStrategy::Alphabetical).unwrap();
    assert_eq!(d.sorted_ids, vec!["b1", "b2"]);
    assert_eq!(h, d.get_metadata());
    assert_eq!(fs.len(), 2);
    assert_eq!(fs[0], d.get_cjfeature(0).unwrap());
    assert_eq!(fs[1], d.get_cjfeature(1).unwrap());
    assert_eq!(fs[1].id, "b2");
}

#[test]
fn cat_stops_at_the_first_fault() {
    let mut d = sample();
    d.version = "0.9".to_string();
    let before = d.clone();
    assert_eq!(
        d.cat(SortingStrategy::Random),
        Err(CjseqError::CityJsonError("Input file not CityJSON v1.1 nor v2.0.".to_string()))
    );
    assert_eq!(d, before);
    assert_eq!(
        d.cat(SortingStrategy::Hilbert),
        Err(CjseqError::CityJsonError("Input file not CityJSON v1.1 nor v2.0.".to_string()))
    );
    assert_eq!(d, before);
    let mut d = sample();
    d.city_objects.entries.retain(|e| e.0 != "b1-part");
    d.vertices.clear();
    assert_eq!(
        d.cat(SortingStrategy::Random),
        Err(CjseqError::MissingObject("b1-part".to_string()))
    );
    let mut d = sample();
    d.vertices.truncate(5);
    assert_eq!(
        d.cat(SortingStrategy::Random),
        Err(CjseqError::InvalidValue {
            field: "boundaries".to_string(),
            reason: "vertex index out of range".to_string(),
        })
    );
}

#[test]
fn a_stream_joins_into_the_document_it_was_cut_from() {
    let mut d = sample();
    let (h, fs) = d.cat(SortingStrategy::Random).unwrap();
    let r = cjseq_to_cj(h, fs).unwrap();
    let mut m = merged_sample();
    m.remove_duplicate_vertices();
    assert_eq!(r, m);
    assert_eq!(r.sorted_ids, d.sorted_ids);
    assert_eq!(r.transform, d.transform);
    assert_eq!(r.city_objects.len(), d.city_objects.len());
    for (key, o) in &d.city_objects.entries {
        let back = r.city_objects.get(key).unwrap();
        assert_eq!(back.thetype, o.thetype);
        assert_eq!(back.children, o.children);
        let mut before = Vec::new();
        leaves(&boundaries_of(&d.city_objects, key), &mut before);
        let mut after = Vec::new();
        leaves(&boundaries_of(&r.city_objects, key), &mut after);
        let old: Vec<&Vec<i64>> = before.iter().map(|x| &d.vertices[*x as usize]).collect();
        let new: Vec<&Vec<i64>> = after.iter().map(|x| &r.vertices[*x as usize]).collect();
        assert_eq!(old, new);
    }
}

#[test]
fn a_stream_with_a_feature_that_cannot_be_added_joins_into_nothing() {
    let mut d = sample();
    let (h, mut fs) = d.cat(SortingStrategy::Random).unwrap();
    fs[1].appearance.as_mut().unwrap().materials.as_mut().unwrap()[0].transparency =
        Some(s(3.0));
    assert_eq!(
        cjseq_to_cj(h.clone(), fs.clone()),
        Err(CjseqError::InvalidValue {
            field: "transparency".to_string(),
            reason: "must be between 0.0 and 1.0".to_string(),
        })
    );
    fs.truncate(1);
    fs[0].vertices[2] = vec![1, 0];
    assert_eq!(
        cjseq_to_cj(h, fs),
        Err(CjseqError::InvalidValue {
            field: "vertices".to_string(),
            reason: "fewer than three coordinates".to_string(),
        })
    );
}
