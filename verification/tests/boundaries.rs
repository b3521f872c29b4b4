use cjseq::{Boundaries, Geometry, GeometryType, IdRemap, MaterialValues, NestedArray, TextureValues};

#[test]
fn renumber_compacts_in_document_order() {
    let mut b: NestedArray<u32> = NestedArray::Nested(vec![
        NestedArray::Indices(vec![7, 3, 7]),
        NestedArray::Indices(vec![3, 9]),
    ]);
    let mut table = IdRemap::new();
    b.update_indices_recursively(&mut table);
    assert_eq!(
        b,
        NestedArray::Nested(vec![
            NestedArray::Indices(vec![0, 1, 0]),
            NestedArray::Indices(vec![1, 2]),
        ])
    );
    assert_eq!(table.len(), 3);
    assert_eq!(table.get(9), Some(2));
}

#[test]
fn renumber_into_a_larger_document_starts_at_the_offset() {
    let mut b: Boundaries = NestedArray::Indices(vec![4, 4, 2]);
    let mut table = IdRemap::new();
    b.renumber(&mut table, 100);
    assert_eq!(b, NestedArray::Indices(vec![100, 100, 101]));
    let mut c: Boundaries = NestedArray::Nested(vec![NestedArray::Indices(vec![2, 8])]);
    c.renumber(&mut table, 100);
    assert_eq!(c, NestedArray::Nested(vec![NestedArray::Indices(vec![101, 102])]));
}

#[test]
fn offset_raises_every_index() {
    let mut b: Boundaries = NestedArray::Nested(vec![
        NestedArray::Nested(vec![NestedArray::Indices(vec![0, 1, 2])]),
        NestedArray::Nested(vec![]),
        NestedArray::Nested(vec![NestedArray::Indices(vec![]), NestedArray::Indices(vec![5])]),
    ]);
    b.offset_geometry_boundaries(10);
    assert_eq!(
        b,
        NestedArray::Nested(vec![
            NestedArray::Nested(vec![NestedArray::Indices(vec![10, 11, 12])]),
            NestedArray::Nested(vec![]),
            NestedArray::Nested(vec![NestedArray::Indices(vec![]), NestedArray::Indices(vec![15])]),
        ])
    );
    let mut top: Boundaries = NestedArray::Indices(vec![u32::MAX - 3]);
    top.offset_geometry_boundaries(3);
    assert_eq!(top, NestedArray::Indices(vec![u32::MAX]));
}

#[test]
fn material_values_skip_what_is_absent() {
    let mut v: MaterialValues = NestedArray::Nested(vec![
        NestedArray::Indices(vec![Some(5), None, Some(2)]),
        NestedArray::Indices(vec![Some(2), Some(5), Some(0)]),
    ]);
    let mut first = IdRemap::new();
    let mut rest = IdRemap::new();
    v.renumber_values(&mut first, &mut rest, 0, false);
    assert_eq!(
        v,
        NestedArray::Nested(vec![
            NestedArray::Indices(vec![Some(0), None, Some(1)]),
            NestedArray::Indices(vec![Some(1), Some(0), Some(2)]),
        ])
    );
    assert_eq!(rest.len(), 0);
}

#[test]
fn texture_values_keep_the_texture_apart_from_its_vertices() {
    let mut v: TextureValues = NestedArray::Nested(vec![
        NestedArray::Indices(vec![Some(3), Some(3), Some(4), Some(3)]),
        NestedArray::Indices(vec![None]),
        NestedArray::Indices(vec![]),
        NestedArray::Indices(vec![Some(4), Some(4), None, Some(7)]),
    ]);
    let mut textures = IdRemap::new();
    let mut uvs = IdRemap::new();
    v.renumber_values(&mut textures, &mut uvs, 20, true);
    assert_eq!(
        v,
        NestedArray::Nested(vec![
            NestedArray::Indices(vec![Some(0), Some(20), Some(21), Some(20)]),
            NestedArray::Indices(vec![None]),
            NestedArray::Indices(vec![]),
            NestedArray::Indices(vec![Some(1), Some(21), None, Some(22)]),
        ])
    );
    assert_eq!(textures.get(3), Some(0));
    assert_eq!(textures.get(4), Some(1));
    assert_eq!(uvs.get(7), Some(22));
}

#[test]
fn geometry_renumbers_only_what_it_is_asked_to() {
    let mut g = Geometry {
        thetype: GeometryType::MultiPoint,
        lod: None,
        boundaries: NestedArray::Indices(vec![9, 8]),
        semantics: None,
        material: None,
        texture: None,
        template: Some(1),
        transformation_matrix: None,
    };
    let mut t = IdRemap::new();
    g.update_material(&mut t);
    g.update_texture(&mut t, &mut IdRemap::new(), 0);
    assert_eq!(t.len(), 0);
    assert_eq!(g.boundaries, NestedArray::Indices(vec![9, 8]));
    g.update_geometry_boundaries(&mut t);
    assert_eq!(g.boundaries, NestedArray::Indices(vec![0, 1]));
    g.offset_geometry_boundaries(5);
    assert_eq!(g.boundaries, NestedArray::Indices(vec![5, 6]));
    assert_eq!(g.clone(), g);
}
