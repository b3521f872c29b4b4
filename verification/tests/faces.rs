use cjseq::obj::{convert_geometry_to_obj, decimal_text, write_obj_face};
use cjseq::{Boundaries, NestedArray};

#[test]
fn cube_gives_six_faces_counted_from_one() {
    let boundaries: Boundaries = NestedArray::Nested(vec![NestedArray::Nested(vec![
        NestedArray::Nested(vec![NestedArray::Indices(vec![0, 1, 2, 3])]),
        NestedArray::Nested(vec![NestedArray::Indices(vec![0, 1, 5, 4])]),
        NestedArray::Nested(vec![NestedArray::Indices(vec![1, 2, 6, 5])]),
        NestedArray::Nested(vec![NestedArray::Indices(vec![2, 3, 7, 6])]),
        NestedArray::Nested(vec![NestedArray::Indices(vec![3, 0, 4, 7])]),
        NestedArray::Nested(vec![NestedArray::Indices(vec![4, 5, 6, 7])]),
    ])]);
    let mut out = String::new();
    convert_geometry_to_obj(&boundaries, &mut out);
    assert_eq!(
        out,
        "f 1 2 3 4\nf 1 2 6 5\nf 2 3 7 6\nf 3 4 8 7\nf 4 1 5 8\nf 5 6 7 8\n"
    );
    assert_eq!(out.lines().filter(|l| l.starts_with("f ")).count(), 6);
    assert!(out.contains("f 1 2 3 4"));
    assert!(out.contains("f 1 2 6 5"));
    assert!(out.contains("f 2 3 7 6"));
    assert!(out.contains("f 3 4 8 7"));
    assert!(out.contains("f 4 1 5 8"));
    assert!(out.contains("f 5 6 7 8"));
}

#[test]
fn a_face_without_vertices_gives_no_line() {
    let mut out = "x".to_string();
    write_obj_face(&vec![], &mut out);
    assert_eq!(out, "x");
    write_obj_face(&vec![9, 99, 4294967295], &mut out);
    assert_eq!(out, "xf 10 100 4294967296\n");
    let mut out = String::new();
    convert_geometry_to_obj(&NestedArray::Nested(vec![]), &mut out);
    assert_eq!(out, "");
}

#[test]
fn numbers_read_in_decimal() {
    assert_eq!(decimal_text(0), "0");
    assert_eq!(decimal_text(7), "7");
    assert_eq!(decimal_text(10), "10");
    assert_eq!(decimal_text(1234567890), "1234567890");
    assert_eq!(decimal_text(u64::MAX), "18446744073709551615");
}
