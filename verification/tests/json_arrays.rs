use cjseq::{nested_array_to_value, node_of, parse_nested_array, value_of, JsonNode, NestedArray};

fn json(text: &str) -> serde_json::Value {
    serde_json::from_str(text).unwrap()
}

#[test]
fn test_multipoint_boundaries() {
    let json_value = json("[2, 44, 0, 7]");
    let boundaries = parse_nested_array::<usize>(&node_of(&json_value));
    assert_eq!(boundaries, NestedArray::Indices(vec![2, 44, 0, 7]));
}

#[test]
fn test_multilinestring_boundaries() {
    let json_value = json("[[2, 3, 5], [77, 55, 212]]");
    let boundaries = parse_nested_array::<usize>(&node_of(&json_value));
    assert_eq!(
        boundaries,
        NestedArray::Nested(vec![
            NestedArray::Indices(vec![2, 3, 5]),
            NestedArray::Indices(vec![77, 55, 212]),
        ])
    );
}

#[test]
fn test_multisurface_boundaries() {
    let json_value = json("[[[0, 3, 2, 1]], [[4, 5, 6, 7]], [[0, 1, 5, 4]]]");
    let boundaries = parse_nested_array::<usize>(&node_of(&json_value));
    assert_eq!(
        boundaries,
        NestedArray::Nested(vec![
            NestedArray::Nested(vec![NestedArray::Indices(vec![0, 3, 2, 1])]),
            NestedArray::Nested(vec![NestedArray::Indices(vec![4, 5, 6, 7])]),
            NestedArray::Nested(vec![NestedArray::Indices(vec![0, 1, 5, 4])]),
        ])
    );
}

#[test]
fn test_solid_boundaries() {
    let json_value = json(
        "[
            [
                [[0, 3, 2, 1, 22]],
                [[4, 5, 6, 7]],
                [[0, 1, 5, 4]],
                [[1, 2, 6, 5]]
            ],
            [
                [[240, 243, 124]],
                [[244, 246, 724]],
                [[34, 414, 45]],
                [[111, 246, 5]]
            ]
        ]",
    );
    let boundaries = parse_nested_array::<usize>(&node_of(&json_value));
    assert_eq!(
        boundaries,
        NestedArray::Nested(vec![
            NestedArray::Nested(vec![
                NestedArray::Nested(vec![NestedArray::Indices(vec![0, 3, 2, 1, 22])]),
                NestedArray::Nested(vec![NestedArray::Indices(vec![4, 5, 6, 7])]),
                NestedArray::Nested(vec![NestedArray::Indices(vec![0, 1, 5, 4])]),
                NestedArray::Nested(vec![NestedArray::Indices(vec![1, 2, 6, 5])]),
            ]),
            NestedArray::Nested(vec![
                NestedArray::Nested(vec![NestedArray::Indices(vec![240, 243, 124])]),
                NestedArray::Nested(vec![NestedArray::Indices(vec![244, 246, 724])]),
                NestedArray::Nested(vec![NestedArray::Indices(vec![34, 414, 45])]),
                NestedArray::Nested(vec![NestedArray::Indices(vec![111, 246, 5])]),
            ]),
        ])
    );
}

#[test]
fn test_composite_solid_boundaries() {
    let json_value = json(
        "[
            [
                [
                    [[0, 3, 2, 1, 22]],
                    [[4, 5, 6, 7]],
                    [[0, 1, 5, 4]],
                    [[1, 2, 6, 5]]
                ],
                [
                    [[240, 243, 124]],
                    [[244, 246, 724]],
                    [[34, 414, 45]],
                    [[111, 246, 5]]
                ]
            ],
            [[
                [[666, 667, 668]],
                [[74, 75, 76]],
                [[880, 881, 885]],
                [[111, 122, 226]]
            ]]
        ]",
    );
    let boundaries = parse_nested_array::<usize>(&node_of(&json_value));
    assert_eq!(
        boundaries,
        NestedArray::Nested(vec![
            NestedArray::Nested(vec![
                NestedArray::Nested(vec![
                    NestedArray::Nested(vec![NestedArray::Indices(vec![0, 3, 2, 1, 22])]),
                    NestedArray::Nested(vec![NestedArray::Indices(vec![4, 5, 6, 7])]),
                    NestedArray::Nested(vec![NestedArray::Indices(vec![0, 1, 5, 4])]),
                    NestedArray::Nested(vec![NestedArray::Indices(vec![1, 2, 6, 5])]),
                ]),
                NestedArray::Nested(vec![
                    NestedArray::Nested(vec![NestedArray::Indices(vec![240, 243, 124])]),
                    NestedArray::Nested(vec![NestedArray::Indices(vec![244, 246, 724])]),
                    NestedArray::Nested(vec![NestedArray::Indices(vec![34, 414, 45])]),
                    NestedArray::Nested(vec![NestedArray::Indices(vec![111, 246, 5])]),
                ]),
            ]),
            NestedArray::Nested(vec![NestedArray::Nested(vec![
                NestedArray::Nested(vec![NestedArray::Indices(vec![666, 667, 668])]),
                NestedArray::Nested(vec![NestedArray::Indices(vec![74, 75, 76])]),
                NestedArray::Nested(vec![NestedArray::Indices(vec![880, 881, 885])]),
                NestedArray::Nested(vec![NestedArray::Indices(vec![111, 122, 226])]),
            ]),])
        ])
    );
}

#[test]
fn what_is_no_index_is_left_out() {
    let v = json("[1, \"two\", null, 3.5, -1, true, {}, 4]");
    assert_eq!(
        parse_nested_array::<u32>(&node_of(&v)),
        NestedArray::Indices(vec![1, u32::MAX, 4])
    );
    assert_eq!(
        parse_nested_array::<Option<u32>>(&node_of(&v)),
        NestedArray::Indices(vec![Some(1), None, Some(u32::MAX), Some(4)])
    );
    assert_eq!(
        parse_nested_array::<Option<usize>>(&node_of(&json("[[null, 7]]"))),
        NestedArray::Nested(vec![NestedArray::Indices(vec![None, Some(7)])])
    );
}

#[test]
fn what_is_no_array_reads_as_no_indices() {
    for text in ["[]", "7", "null", "{\"a\": [1]}", "\"x\""] {
        assert_eq!(
            parse_nested_array::<u32>(&node_of(&json(text))),
            NestedArray::Indices(vec![])
        );
    }
    assert_eq!(
        parse_nested_array::<u32>(&node_of(&json("[[1], 2, []]"))),
        NestedArray::Nested(vec![
            NestedArray::Indices(vec![1]),
            NestedArray::Indices(vec![]),
            NestedArray::Indices(vec![]),
        ])
    );
    assert_eq!(
        parse_nested_array::<u32>(&node_of(&json("[2, [1]]"))),
        NestedArray::Indices(vec![2])
    );
}

#[test]
fn nodes_keep_what_matters_of_a_value() {
    assert_eq!(
        node_of(&json("[null, 18446744073709551615, -9223372036854775808, [0], 1.5, \"s\"]")),
        JsonNode::Array(vec![
            JsonNode::Null,
            JsonNode::Unsigned(u64::MAX),
            JsonNode::Signed(i64::MIN),
            JsonNode::Array(vec![JsonNode::Unsigned(0)]),
            JsonNode::Other,
            JsonNode::Other,
        ])
    );
}

#[test]
fn written_arrays_read_back() {
    let b: NestedArray<u32> = NestedArray::Nested(vec![
        NestedArray::Nested(vec![NestedArray::Indices(vec![0, 3, 2]), NestedArray::Indices(vec![])]),
        NestedArray::Nested(vec![NestedArray::Indices(vec![u32::MAX])]),
    ]);
    let node = nested_array_to_value(&b);
    assert_eq!(parse_nested_array::<u32>(&node), b);
    let value = value_of(&node);
    assert_eq!(value, json("[[[0, 3, 2], []], [[4294967295]]]"));
    assert_eq!(node_of(&value), node);

    let m: NestedArray<Option<usize>> =
        NestedArray::Nested(vec![NestedArray::Indices(vec![Some(1), None, Some(0)])]);
    let node = nested_array_to_value(&m);
    assert_eq!(value_of(&node), json("[[1, null, 0]]"));
    assert_eq!(parse_nested_array::<Option<usize>>(&node), m);
    assert_eq!(value_of(&JsonNode::Signed(-5)), json("-5"));
    assert_eq!(value_of(&JsonNode::Other), serde_json::Value::Null);
}
