//! Nested arrays as JSON: an array is a list of indices unless its first
//! item is an array, in which case it is a list of nested arrays.

use crate::json::{
    array_value, as_array, as_i64, as_u64, is_null, json_array, json_height, json_i64,
    json_is_null, json_u64, negative_value, null_value, unsigned_value,
};
use crate::nested::{lemma_trees_of, trees_of, NestedArray, Tree};
use vstd::prelude::*;

verus! {

/// What of a JSON value matters for a nested array of indices.
#[derive(Debug, PartialEq, Eq)]
pub enum JsonNode {
    /// `null`.
    Null,
    /// A whole number that is not below zero.
    Unsigned(u64),
    /// A whole number below zero.
    Signed(i64),
    /// An array.
    Array(Vec<JsonNode>),
    /// Anything else.
    Other,
}

/// What a [`JsonNode`] holds.
pub enum JsonTree {
    Null,
    Unsigned(u64),
    Signed(i64),
    Array(Seq<JsonTree>),
    Other,
}

/// What `n` holds.
pub open spec fn json_tree_of(n: JsonNode) -> JsonTree
    decreases n,
{
    match n {
        JsonNode::Null => JsonTree::Null,
        JsonNode::Unsigned(u) => JsonTree::Unsigned(u),
        JsonNode::Signed(i) => JsonTree::Signed(i),
        JsonNode::Array(items) => JsonTree::Array(json_trees_of(items@)),
        JsonNode::Other => JsonTree::Other,
    }
}

/// What each of `items` holds.
pub open spec fn json_trees_of(items: Seq<JsonNode>) -> Seq<JsonTree>
    decreases items,
{
    if items.len() == 0 {
        Seq::empty()
    } else {
        json_trees_of(items.drop_last()).push(json_tree_of(items.last()))
    }
}

/// `json_trees_of` goes item by item.
pub proof fn lemma_json_trees_of(items: Seq<JsonNode>)
    ensures
        json_trees_of(items).len() == items.len(),
        forall|i: int|
            0 <= i < items.len() ==> (#[trigger] json_trees_of(items)[i]) == json_tree_of(items[i]),
    decreases items.len(),
{
    if items.len() > 0 {
        lemma_json_trees_of(items.drop_last());
    }
}

impl View for JsonNode {
    type V = JsonTree;

    open spec fn view(&self) -> JsonTree {
        json_tree_of(*self)
    }
}

/// A kind of index that can be read from JSON and written as JSON.
pub trait JsonIndex: Sized {
    /// The index that a JSON value reads as, if it reads as one.
    spec fn parsed(n: JsonTree) -> Option<Self>;

    /// The JSON value that the index is written as.
    spec fn written(self) -> JsonTree;

    /// Reads an index from a JSON value; none if the value is not one.
    fn from_value(v: &JsonNode) -> (r: Option<Self>)
        ensures
            r == Self::parsed(v@),
    ;

    /// Writes the index as a JSON value.
    fn to_value(&self) -> (n: JsonNode)
        ensures
            n@ == self.written(),
    ;

    /// An index is written as a value that is no array and that reads as
    /// the index.
    proof fn lemma_reads_back(x: Self)
        ensures
            Self::parsed(x.written()) == Some(x),
            !(x.written() is Array),
    ;
}

impl JsonIndex for u32 {
    /// A number, cut to 32 bits; `null` is no index.
    open spec fn parsed(n: JsonTree) -> Option<u32> {
        match n {
            JsonTree::Unsigned(u) => Some(u as u32),
            JsonTree::Signed(i) => Some(i as u32),
            _ => None,
        }
    }

    open spec fn written(self) -> JsonTree {
        JsonTree::Unsigned(self as u64)
    }

    fn from_value(v: &JsonNode) -> (r: Option<u32>) {
        match v {
            JsonNode::Unsigned(u) => Some(#[verifier::truncate] (*u as u32)),
            JsonNode::Signed(i) => Some(#[verifier::truncate] (*i as u32)),
            _ => None,
        }
    }

    fn to_value(&self) -> (n: JsonNode) {
        JsonNode::Unsigned(*self as u64)
    }

    proof fn lemma_reads_back(x: Self) {
    }
}

impl JsonIndex for Option<u32> {
    /// A number, cut to 32 bits, or `null` for an absent index.
    open spec fn parsed(n: JsonTree) -> Option<Option<u32>> {
        match n {
            JsonTree::Null => Some(None),
            JsonTree::Unsigned(u) => Some(Some(u as u32)),
            JsonTree::Signed(i) => Some(Some(i as u32)),
            _ => None,
        }
    }

    open spec fn written(self) -> JsonTree {
        match self {
            Some(x) => JsonTree::Unsigned(x as u64),
            None => JsonTree::Null,
        }
    }

    fn from_value(v: &JsonNode) -> (r: Option<Option<u32>>) {
        match v {
            JsonNode::Null => Some(None),
            JsonNode::Unsigned(u) => Some(Some(#[verifier::truncate] (*u as u32))),
            JsonNode::Signed(i) => Some(Some(#[verifier::truncate] (*i as u32))),
            _ => None,
        }
    }

    fn to_value(&self) -> (n: JsonNode) {
        match self {
            Some(x) => JsonNode::Unsigned(*x as u64),
            None => JsonNode::Null,
        }
    }

    proof fn lemma_reads_back(x: Self) {
    }
}

impl JsonIndex for usize {
    /// A number, cut to the width of the machine; `null` is no index.
    open spec fn parsed(n: JsonTree) -> Option<usize> {
        match n {
            JsonTree::Unsigned(u) => Some(u as usize),
            JsonTree::Signed(i) => Some(i as usize),
            _ => None,
        }
    }

    open spec fn written(self) -> JsonTree {
        JsonTree::Unsigned(self as u64)
    }

    fn from_value(v: &JsonNode) -> (r: Option<usize>) {
        match v {
            JsonNode::Unsigned(u) => Some(#[verifier::truncate] (*u as usize)),
            JsonNode::Signed(i) => Some(#[verifier::truncate] (*i as usize)),
            _ => None,
        }
    }

    fn to_value(&self) -> (n: JsonNode) {
        JsonNode::Unsigned(*self as u64)
    }

    proof fn lemma_reads_back(x: Self) {
    }
}

impl JsonIndex for Option<usize> {
    /// A number, cut to the width of the machine, or `null` for an absent
    /// index.
    open spec fn parsed(n: JsonTree) -> Option<Option<usize>> {
        match n {
            JsonTree::Null => Some(None),
            JsonTree::Unsigned(u) => Some(Some(u as usize)),
            JsonTree::Signed(i) => Some(Some(i as usize)),
            _ => None,
        }
    }

    open spec fn written(self) -> JsonTree {
        match self {
            Some(x) => JsonTree::Unsigned(x as u64),
            None => JsonTree::Null,
        }
    }

    fn from_value(v: &JsonNode) -> (r: Option<Option<usize>>) {
        match v {
            JsonNode::Null => Some(None),
            JsonNode::Unsigned(u) => Some(Some(#[verifier::truncate] (*u as usize))),
            JsonNode::Signed(i) => Some(Some(#[verifier::truncate] (*i as usize))),
            _ => None,
        }
    }

    fn to_value(&self) -> (n: JsonNode) {
        match self {
            Some(x) => JsonNode::Unsigned(*x as u64),
            None => JsonNode::Null,
        }
    }

    proof fn lemma_reads_back(x: Self) {
    }
}

/// The indices that the items read as, in order; an item that reads as none
/// is left out.
pub open spec fn parse_leaves<T: JsonIndex>(items: Seq<JsonTree>) -> Seq<T>
    decreases items.len(),
{
    if items.len() == 0 {
        Seq::empty()
    } else {
        match T::parsed(items.last()) {
            Some(x) => parse_leaves::<T>(items.drop_last()).push(x),
            None => parse_leaves::<T>(items.drop_last()),
        }
    }
}

/// The nested array that a JSON value reads as: an array whose first item
/// is an array is a list of nested arrays; any other array is a list of
/// indices; anything else is an empty list of indices.
pub open spec fn parse_tree<T: JsonIndex>(t: JsonTree) -> Tree<T>
    decreases t,
{
    match t {
        JsonTree::Array(items) => if items.len() > 0 && items[0] is Array {
            Tree::Nodes(parse_each::<T>(items))
        } else {
            Tree::Leaves(parse_leaves::<T>(items))
        },
        _ => Tree::Leaves(Seq::empty()),
    }
}

/// The nested arrays that the items read as.
pub open spec fn parse_each<T: JsonIndex>(items: Seq<JsonTree>) -> Seq<Tree<T>>
    decreases items,
{
    if items.len() == 0 {
        Seq::empty()
    } else {
        parse_each::<T>(items.drop_last()).push(parse_tree::<T>(items.last()))
    }
}

/// The JSON values that the indices are written as.
pub open spec fn write_leaves<T: JsonIndex>(s: Seq<T>) -> Seq<JsonTree>
    decreases s.len(),
{
    if s.len() == 0 {
        Seq::empty()
    } else {
        write_leaves(s.drop_last()).push(s.last().written())
    }
}

/// The JSON value that a nested array is written as: an array of its
/// indices, or of its nested arrays.
pub open spec fn write_tree<T: JsonIndex>(t: Tree<T>) -> JsonTree
    decreases t,
{
    match t {
        Tree::Leaves(s) => JsonTree::Array(write_leaves(s)),
        Tree::Nodes(cs) => JsonTree::Array(write_each(cs)),
    }
}

/// The JSON values that the nested arrays are written as.
pub open spec fn write_each<T: JsonIndex>(cs: Seq<Tree<T>>) -> Seq<JsonTree>
    decreases cs,
{
    if cs.len() == 0 {
        Seq::empty()
    } else {
        write_each(cs.drop_last()).push(write_tree(cs.last()))
    }
}

/// Reads a list of indices.
fn parse_indices<T: JsonIndex>(items: &Vec<JsonNode>) -> (r: Vec<T>)
    ensures
        r@ == parse_leaves::<T>(json_trees_of(items@)),
{
    let n = items.len();
    let ghost ts = json_trees_of(items@);
    let mut r: Vec<T> = Vec::new();
    let mut i: usize = 0;
    proof {
        lemma_json_trees_of(items@);
        assert(ts.take(0) =~= Seq::<JsonTree>::empty());
    }
    while i < n
        invariant
            i <= n,
            n == items@.len(),
            ts == json_trees_of(items@),
            ts.len() == n,
            forall|j: int| 0 <= j < n ==> (#[trigger] ts[j]) == items@[j]@,
            r@ == parse_leaves::<T>(ts.take(i as int)),
        decreases n - i,
    {
        assert(ts.take(i + 1).drop_last() =~= ts.take(i as int));
        assert(ts.take(i + 1).last() == items@[i as int]@);
        match T::from_value(&items[i]) {
            Some(x) => {
                r.push(x);
            },
            None => {},
        }
        i += 1;
    }
    assert(ts.take(n as int) =~= ts);
    r
}

/// Reads a list of nested arrays.
fn parse_nested<T: JsonIndex>(items: &Vec<JsonNode>) -> (r: Vec<NestedArray<T>>)
    ensures
        trees_of(r@) == parse_each::<T>(json_trees_of(items@)),
    decreases items,
{
    let n = items.len();
    let ghost ts = json_trees_of(items@);
    let mut r: Vec<NestedArray<T>> = Vec::new();
    let mut i: usize = 0;
    proof {
        lemma_json_trees_of(items@);
        assert(ts.take(0) =~= Seq::<JsonTree>::empty());
    }
    while i < n
        invariant
            i <= n,
            n == items@.len(),
            ts == json_trees_of(items@),
            ts.len() == n,
            forall|j: int| 0 <= j < n ==> (#[trigger] ts[j]) == items@[j]@,
            trees_of(r@) == parse_each::<T>(ts.take(i as int)),
        decreases n - i,
    {
        assert(ts.take(i + 1).drop_last() =~= ts.take(i as int));
        assert(ts.take(i + 1).last() == items@[i as int]@);
        let ghost before = r@;
        let sub = parse_nested_array::<T>(&items[i]);
        r.push(sub);
        assert(r@.drop_last() =~= before);
        i += 1;
    }
    assert(ts.take(n as int) =~= ts);
    r
}

/// Reads a nested array from a JSON value.
pub fn parse_nested_array<T: JsonIndex>(v: &JsonNode) -> (r: NestedArray<T>)
    ensures
        r@ == parse_tree::<T>(v@),
    decreases v,
{
    match v {
        JsonNode::Array(elems) => {
            proof {
                lemma_json_trees_of(elems@);
            }
            if elems.len() == 0 {
                NestedArray::Indices(Vec::new())
            } else {
                match &elems[0] {
                    JsonNode::Array(_) => NestedArray::Nested(parse_nested::<T>(elems)),
                    _ => NestedArray::Indices(parse_indices::<T>(elems)),
                }
            }
        },
        _ => NestedArray::Indices(Vec::new()),
    }
}

/// Writes a list of indices.
fn write_indices<T: JsonIndex>(s: &Vec<T>) -> (r: Vec<JsonNode>)
    ensures
        json_trees_of(r@) == write_leaves(s@),
{
    let n = s.len();
    let mut r: Vec<JsonNode> = Vec::new();
    let mut i: usize = 0;
    assert(s@.take(0) =~= Seq::<T>::empty());
    while i < n
        invariant
            i <= n,
            n == s@.len(),
            json_trees_of(r@) == write_leaves(s@.take(i as int)),
        decreases n - i,
    {
        assert(s@.take(i + 1).drop_last() =~= s@.take(i as int));
        let ghost before = r@;
        r.push(s[i].to_value());
        assert(r@.drop_last() =~= before);
        i += 1;
    }
    assert(s@.take(n as int) =~= s@);
    r
}

/// Writes a list of nested arrays.
fn write_nested<T: JsonIndex>(subs: &Vec<NestedArray<T>>) -> (r: Vec<JsonNode>)
    ensures
        json_trees_of(r@) == write_each(trees_of(subs@)),
    decreases subs,
{
    let n = subs.len();
    let ghost cs = trees_of(subs@);
    let mut r: Vec<JsonNode> = Vec::new();
    let mut i: usize = 0;
    proof {
        lemma_trees_of(subs@);
        assert(cs.take(0) =~= Seq::<Tree<T>>::empty());
    }
    while i < n
        invariant
            i <= n,
            n == subs@.len(),
            cs == trees_of(subs@),
            cs.len() == n,
            forall|j: int| 0 <= j < n ==> (#[trigger] cs[j]) == subs@[j]@,
            json_trees_of(r@) == write_each(cs.take(i as int)),
        decreases n - i,
    {
        assert(cs.take(i + 1).drop_last() =~= cs.take(i as int));
        assert(cs.take(i + 1).last() == subs@[i as int]@);
        let ghost before = r@;
        r.push(nested_array_to_value(&subs[i]));
        assert(r@.drop_last() =~= before);
        i += 1;
    }
    assert(cs.take(n as int) =~= cs);
    r
}

/// Writes a nested array as a JSON value.
pub fn nested_array_to_value<T: JsonIndex>(na: &NestedArray<T>) -> (n: JsonNode)
    ensures
        n@ == write_tree(na@),
    decreases na,
{
    match na {
        NestedArray::Indices(s) => JsonNode::Array(write_indices(s)),
        NestedArray::Nested(subs) => JsonNode::Array(write_nested(subs)),
    }
}

/// Whether the JSON value `v` reads as `t`.
pub open spec fn reads_as(v: serde_json::Value, t: JsonTree) -> bool
    decreases t,
{
    match t {
        JsonTree::Null => json_is_null(v),
        JsonTree::Unsigned(u) => !json_is_null(v) && json_u64(v) == Some(u),
        JsonTree::Signed(i) => !json_is_null(v) && json_u64(v) is None && json_i64(v) == Some(i),
        JsonTree::Array(ts) => !json_is_null(v) && json_u64(v) is None && json_i64(v) is None
            && json_array(v) is Some && json_array(v)->0.len() == ts.len() && forall|k: int|
            0 <= k < ts.len() ==> reads_as(json_array(v)->0[k], #[trigger] ts[k]),
        JsonTree::Other => !json_is_null(v) && json_u64(v) is None && json_i64(v) is None
            && json_array(v) is None,
    }
}

/// What of a JSON value matters for a nested array of indices.
pub fn node_of(v: &serde_json::Value) -> (n: JsonNode)
    ensures
        reads_as(*v, n@),
    decreases json_height(*v),
{
    if is_null(v) {
        return JsonNode::Null;
    }
    match as_u64(v) {
        Some(u) => {
            return JsonNode::Unsigned(u);
        },
        None => {},
    }
    match as_i64(v) {
        Some(i) => {
            return JsonNode::Signed(i);
        },
        None => {},
    }
    match as_array(v) {
        Some(items) => {
            let n = items.len();
            let mut r: Vec<JsonNode> = Vec::new();
            let mut k: usize = 0;
            while k < n
                invariant
                    k <= n,
                    n == items@.len(),
                    r@.len() == k,
                    json_array(*v) == Some(items@),
                    forall|j: int|
                        0 <= j < n ==> json_height(#[trigger] items@[j]) < json_height(*v),
                    forall|j: int| 0 <= j < k ==> reads_as(items@[j], (#[trigger] r@[j])@),
                decreases n - k,
            {
                r.push(node_of(&items[k]));
                k += 1;
            }
            proof {
                lemma_json_trees_of(r@);
            }
            JsonNode::Array(r)
        },
        None => JsonNode::Other,
    }
}

/// Whether nothing in `t` stands for a JSON value that it does not keep.
pub open spec fn whole(t: JsonTree) -> bool
    decreases t,
{
    match t {
        JsonTree::Array(ts) => forall|k: int| 0 <= k < ts.len() ==> whole(#[trigger] ts[k]),
        JsonTree::Other => false,
        JsonTree::Signed(i) => i < 0,
        _ => true,
    }
}

/// The JSON value that `n` stands for; `null` where `n` stands for a value
/// that it does not keep.
pub fn value_of(n: &JsonNode) -> (v: serde_json::Value)
    ensures
        whole(n@) ==> reads_as(v, n@),
    decreases n,
{
    match n {
        JsonNode::Null => null_value(),
        JsonNode::Unsigned(u) => unsigned_value(*u),
        JsonNode::Signed(i) => {
            if *i < 0 {
                negative_value(*i)
            } else {
                unsigned_value(*i as u64)
            }
        },
        JsonNode::Array(items) => {
            let m = items.len();
            let mut r: Vec<serde_json::Value> = Vec::new();
            let mut k: usize = 0;
            proof {
                lemma_json_trees_of(items@);
            }
            while k < m
                invariant
                    k <= m,
                    m == items@.len(),
                    r@.len() == k,
                    forall|j: int|
                        0 <= j < k ==> whole(items@[j]@) ==> reads_as(#[trigger] r@[j], items@[j]@),
                    decreases_to!(n => items),
                decreases m - k,
            {
                assert(decreases_to!(items => items[k as int]));
                r.push(value_of(&items[k]));
                k += 1;
            }
            array_value(r)
        },
        JsonNode::Other => null_value(),
    }
}

impl<T> Tree<T> {
    /// Whether every list of nested arrays in the tree has an item.
    pub open spec fn full(self) -> bool
        decreases self,
    {
        match self {
            Tree::Leaves(_) => true,
            Tree::Nodes(cs) => cs.len() > 0 && forall|i: int|
                0 <= i < cs.len() ==> (#[trigger] cs[i]).full(),
        }
    }
}

/// Written indices read back as they were.
pub proof fn lemma_leaves_read_back<T: JsonIndex>(s: Seq<T>)
    ensures
        parse_leaves::<T>(write_leaves(s)) == s,
        write_leaves(s).len() == s.len(),
        s.len() > 0 ==> !(write_leaves(s)[0] is Array),
    decreases s.len(),
{
    if s.len() > 0 {
        lemma_leaves_read_back(s.drop_last());
        T::lemma_reads_back(s.last());
        let w = write_leaves(s);
        assert(w.drop_last() =~= write_leaves(s.drop_last()));
        assert(w.last() == s.last().written());
        if s.len() > 1 {
            assert(w[0] == write_leaves(s.drop_last())[0]);
        }
        assert(parse_leaves::<T>(w) =~= s);
    }
}

/// Written nested arrays read back as they were, if each of them does.
pub proof fn lemma_each_reads_back<T: JsonIndex>(cs: Seq<Tree<T>>)
    requires
        forall|i: int| 0 <= i < cs.len() ==> parse_tree::<T>(write_tree(#[trigger] cs[i])) == cs[i],
    ensures
        parse_each::<T>(write_each(cs)) == cs,
        write_each(cs).len() == cs.len(),
        cs.len() > 0 ==> write_each(cs)[0] is Array,
    decreases cs.len(),
{
    if cs.len() > 0 {
        assert forall|i: int| 0 <= i < cs.drop_last().len() implies parse_tree::<T>(
            write_tree(#[trigger] cs.drop_last()[i]),
        ) == cs.drop_last()[i] by {
            assert(cs.drop_last()[i] == cs[i]);
        }
        lemma_each_reads_back(cs.drop_last());
        let w = write_each(cs);
        assert(w.drop_last() =~= write_each(cs.drop_last()));
        assert(w.last() == write_tree(cs.last()));
        if cs.len() > 1 {
            assert(w[0] == write_each(cs.drop_last())[0]);
        }
        assert(parse_tree::<T>(write_tree(cs[cs.len() - 1])) == cs[cs.len() - 1]);
        assert(parse_each::<T>(w) =~= cs);
    }
}

/// A nested array in which every list of nested arrays has an item reads
/// back, from the JSON value that it is written as, as it was.
pub proof fn law_written_reads_back<T: JsonIndex>(t: Tree<T>)
    requires
        t.full(),
    ensures
        parse_tree::<T>(write_tree(t)) == t,
    decreases t,
{
    match t {
        Tree::Leaves(s) => {
            lemma_leaves_read_back(s);
        },
        Tree::Nodes(cs) => {
            assert forall|i: int| 0 <= i < cs.len() implies parse_tree::<T>(
                write_tree(#[trigger] cs[i]),
            ) == cs[i] by {
                law_written_reads_back(cs[i]);
            }
            lemma_each_reads_back(cs);
        },
    }
}

} // verus!
