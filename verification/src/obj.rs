//! The faces of a mesh, written as lines of text: an `f`, then the vertices
//! of the face, counted from one.

use crate::nested::{lemma_view_nested, lists_upto, NestedArray};
use vstd::prelude::*;
use vstd::string::StringExecFns;

verus! {

/// The text of one digit.
pub open spec fn digit_text(d: nat) -> Seq<char> {
    if d == 0 {
        "0"@
    } else if d == 1 {
        "1"@
    } else if d == 2 {
        "2"@
    } else if d == 3 {
        "3"@
    } else if d == 4 {
        "4"@
    } else if d == 5 {
        "5"@
    } else if d == 6 {
        "6"@
    } else if d == 7 {
        "7"@
    } else if d == 8 {
        "8"@
    } else {
        "9"@
    }
}

/// The text of a number, in decimal.
pub open spec fn decimal(n: nat) -> Seq<char>
    decreases n,
{
    if n < 10 {
        digit_text(n)
    } else {
        decimal(n / 10) + digit_text(n % 10)
    }
}

/// The text of the vertices of a face: a space and the index plus one, for
/// each index.
pub open spec fn indices_text(s: Seq<u32>) -> Seq<char>
    decreases s.len(),
{
    if s.len() == 0 {
        Seq::empty()
    } else {
        indices_text(s.drop_last()) + " "@ + decimal((s.last() + 1) as nat)
    }
}

/// The line of one face; nothing for a face without vertices.
pub open spec fn face_line(s: Seq<u32>) -> Seq<char> {
    if s.len() == 0 {
        Seq::empty()
    } else {
        "f"@ + indices_text(s) + "\n"@
    }
}

/// The lines of the faces `ls`, one after the other.
pub open spec fn face_lines(ls: Seq<Seq<u32>>) -> Seq<char>
    decreases ls.len(),
{
    if ls.len() == 0 {
        Seq::empty()
    } else {
        face_lines(ls.drop_last()) + face_line(ls.last())
    }
}

/// The lines of two runs of faces are those of the first, then those of the
/// second.
pub proof fn lemma_face_lines_concat(a: Seq<Seq<u32>>, b: Seq<Seq<u32>>)
    ensures
        face_lines(a + b) == face_lines(a) + face_lines(b),
    decreases b.len(),
{
    if b.len() == 0 {
        assert(a + b =~= a);
        assert(face_lines(a) + face_lines(b) =~= face_lines(a));
    } else {
        lemma_face_lines_concat(a, b.drop_last());
        assert((a + b).drop_last() =~= a + b.drop_last());
        assert((a + b).last() == b.last());
        assert(face_lines(a + b) =~= face_lines(a) + face_lines(b));
    }
}

/// The text of one digit.
fn digit(d: u64) -> (s: &'static str)
    requires
        d < 10,
    ensures
        s@ == digit_text(d as nat),
{
    if d == 0 {
        "0"
    } else if d == 1 {
        "1"
    } else if d == 2 {
        "2"
    } else if d == 3 {
        "3"
    } else if d == 4 {
        "4"
    } else if d == 5 {
        "5"
    } else if d == 6 {
        "6"
    } else if d == 7 {
        "7"
    } else if d == 8 {
        "8"
    } else {
        "9"
    }
}

/// The text of a number, in decimal.
pub fn decimal_text(n: u64) -> (s: String)
    ensures
        s@ == decimal(n as nat),
    decreases n,
{
    if n < 10 {
        String::from_str(digit(n))
    } else {
        decimal_text(n / 10).concat(digit(n % 10))
    }
}

/// Adds the line of one face to `out`: `f`, then each index plus one.
/// Nothing is added for a face without vertices.
pub fn write_obj_face(indices: &Vec<u32>, out: &mut String)
    ensures
        final(out)@ == old(out)@ + face_line(indices@),
{
    let n = indices.len();
    if n == 0 {
        assert(out@ + face_line(indices@) =~= out@);
        return ;
    }
    let mut line = String::from_str("f");
    let mut i: usize = 0;
    assert(indices@.take(0) =~= Seq::<u32>::empty());
    assert("f"@ + Seq::<char>::empty() =~= "f"@);
    while i < n
        invariant
            i <= n,
            n == indices@.len(),
            line@ == "f"@ + indices_text(indices@.take(i as int)),
        decreases n - i,
    {
        assert(indices@.take(i + 1).drop_last() =~= indices@.take(i as int));
        let ghost before = line@;
        let number = decimal_text(indices[i] as u64 + 1);
        line.append(" ");
        line.append(number.as_str());
        assert(line@ =~= "f"@ + indices_text(indices@.take(i + 1)));
        i += 1;
    }
    assert(indices@.take(n as int) =~= indices@);
    line.append("\n");
    out.append(line.as_str());
}

/// Adds the lines of the faces of each nested array of `subs`, in order.
fn write_each(subs: &Vec<NestedArray<u32>>, out: &mut String)
    ensures
        final(out)@ == old(out)@ + face_lines(NestedArray::Nested(*subs)@.lists()),
    decreases subs,
{
    let n = subs.len();
    let ghost cs = NestedArray::Nested(*subs)@->Nodes_0;
    let mut i: usize = 0;
    proof {
        lemma_view_nested(*subs);
        assert(out@ + face_lines(lists_upto(cs, 0)) =~= out@);
    }
    while i < n
        invariant
            i <= n,
            n == subs@.len(),
            cs == NestedArray::Nested(*subs)@->Nodes_0,
            cs.len() == n,
            forall|j: int| 0 <= j < n ==> #[trigger] cs[j] == subs@[j]@,
            out@ == old(out)@ + face_lines(lists_upto(cs, i as nat)),
        decreases n - i,
    {
        proof {
            lemma_face_lines_concat(lists_upto(cs, i as nat), cs[i as int].lists());
            assert(cs[i as int] == subs@[i as int]@);
        }
        convert_geometry_to_obj(&subs[i], out);
        assert(out@ =~= old(out)@ + face_lines(lists_upto(cs, (i + 1) as nat)));
        i += 1;
    }
}

/// Adds the lines of the faces of a boundary to `out`: one line for each
/// list of indices, in document order.
pub fn convert_geometry_to_obj(boundaries: &NestedArray<u32>, out: &mut String)
    ensures
        final(out)@ == old(out)@ + face_lines(boundaries@.lists()),
    decreases boundaries,
{
    match boundaries {
        NestedArray::Indices(indices) => {
            proof {
                let ls = boundaries@.lists();
                assert(ls.drop_last() =~= Seq::<Seq<u32>>::empty());
                assert(face_lines(ls.drop_last()) =~= Seq::<char>::empty());
                assert(face_lines(ls) =~= face_line(indices@));
            }
            write_obj_face(indices, out);
        },
        NestedArray::Nested(subs) => {
            write_each(subs, out);
        },
    }
}

} // verus!
