//! Reading the lines of a text model file.
//!
//! A line is split into tokens at white space. A line whose first token is
//! `v` gives a vertex: three coordinates, each a decimal number. A line
//! whose first token is `f` gives a triangular face: three vertex indices
//! that count from one, each optionally followed by a `/` and further
//! indices that are ignored. Every other line, and every line that does not
//! have exactly this shape, is skipped.

use vstd::prelude::*;
use vstd::string::StrSliceExecFns;

use crate::mesh::Face;
use crate::obj_importer::numbers::face_index;
use crate::obj_importer::numbers::is_coordinate;
use crate::obj_importer::numbers::is_float_literal;
use crate::obj_importer::numbers::parse_face_index;
use crate::obj_importer::tokens::chars_of;
use crate::obj_importer::tokens::is_run;
use crate::obj_importer::tokens::lemma_token_ranges;
use crate::obj_importer::tokens::token_ranges;
use crate::obj_importer::tokens::token_spans;
use crate::obj_importer::tokens::token_text;
use crate::obj_importer::tokens::tokens;

pub mod numbers;
pub mod tokens;

verus! {

/// The three coordinates of a vertex line, each as the text that the line
/// holds for it. Each text is one that `str::parse` reads as a float.
#[derive(Clone, Debug, PartialEq, Eq)]
pub struct VertexText {
    pub x: String,
    pub y: String,
    pub z: String,
}

impl View for VertexText {
    type V = (Seq<char>, Seq<char>, Seq<char>);

    open spec fn view(&self) -> (Seq<char>, Seq<char>, Seq<char>) {
        (self.x@, self.y@, self.z@)
    }
}

/// What a line of a model file gives.
#[derive(Clone, Debug, PartialEq, Eq)]
pub enum ObjLine {
    /// A vertex.
    V(VertexText),
    /// A triangular face, its indices counted from zero.
    F(Face),
}

/// What a line of a model file gives, as a mathematical value.
pub enum ObjLineView {
    V(Seq<char>, Seq<char>, Seq<char>),
    F(Face),
}

impl View for ObjLine {
    type V = ObjLineView;

    open spec fn view(&self) -> ObjLineView {
        match self {
            ObjLine::V(v) => ObjLineView::V(v.x@, v.y@, v.z@),
            ObjLine::F(f) => ObjLineView::F(*f),
        }
    }
}

/// What the line `line` gives: a vertex when it is `v` and three
/// coordinates, a face when it is `f` and three tokens that name a vertex
/// index, and nothing otherwise.
pub open spec fn parse_line_spec(line: Seq<char>) -> Option<ObjLineView> {
    let t = tokens(line);
    if t.len() != 4 {
        None
    } else if t[0] == seq!['v'] {
        if is_float_literal(t[1]) && is_float_literal(t[2]) && is_float_literal(t[3]) {
            Some(ObjLineView::V(t[1], t[2], t[3]))
        } else {
            None
        }
    } else if t[0] == seq!['f'] {
        match (face_index(t[1]), face_index(t[2]), face_index(t[3])) {
            (Some(a), Some(b), Some(c)) => Some(ObjLineView::F(Face { a, b, c })),
            _ => None,
        }
    } else {
        None
    }
}

/// Reads one line of a model file. A line that is neither a vertex nor a
/// face, or is not well formed, gives `None`.
pub fn parse_line(line: &str) -> (parsed: Option<ObjLine>)
    ensures
        match parsed {
            Some(l) => parse_line_spec(line@) == Some(l@),
            None => parse_line_spec(line@) is None,
        },
{
    let chars = chars_of(line);
    let spans = token_spans(&chars);
    proof {
        lemma_token_ranges(chars@);
    }
    if spans.len() != 4 {
        return None;
    }
    let ghost t = tokens(line@);
    proof {
        let r = token_ranges(chars@);
        assert(is_run(chars@, r[0]));
        assert(is_run(chars@, r[1]));
        assert(is_run(chars@, r[2]));
        assert(is_run(chars@, r[3]));
    }
    let kind = token_text(&chars, spans[0]);
    let t1 = token_text(&chars, spans[1]);
    let t2 = token_text(&chars, spans[2]);
    let t3 = token_text(&chars, spans[3]);
    assert(kind@ == t[0] && t1@ == t[1] && t2@ == t[2] && t3@ == t[3]);
    if kind.len() != 1 {
        proof {
            assert(seq!['v'].len() == 1 && seq!['f'].len() == 1);
        }
        return None;
    }
    let marker = kind[0];
    proof {
        assert(kind@ =~= seq![marker]);
        assert(seq!['v'][0] == 'v' && seq!['f'][0] == 'f');
    }
    if marker == 'v' {
        if is_coordinate(&t1) && is_coordinate(&t2) && is_coordinate(&t3) {
            let x = line.substring_char(spans[1].0, spans[1].1).to_owned();
            let y = line.substring_char(spans[2].0, spans[2].1).to_owned();
            let z = line.substring_char(spans[3].0, spans[3].1).to_owned();
            Some(ObjLine::V(VertexText { x: x, y: y, z: z }))
        } else {
            None
        }
    } else if marker == 'f' {
        match (parse_face_index(&t1), parse_face_index(&t2), parse_face_index(&t3)) {
            (Some(a), Some(b), Some(c)) => Some(ObjLine::F(Face::new(a, b, c))),
            _ => None,
        }
    } else {
        None
    }
}

/// The vertices and faces read from a model file, in the order of its
/// lines.
#[derive(Clone, Debug, PartialEq, Eq)]
pub struct ObjModel {
    pub name: String,
    pub vertices: Vec<VertexText>,
    pub faces: Vec<Face>,
}

/// The vertices that `lines` give, in order.
pub open spec fn vertices_of(lines: Seq<String>) -> Seq<(Seq<char>, Seq<char>, Seq<char>)>
    decreases lines.len(),
{
    if lines.len() == 0 {
        Seq::empty()
    } else {
        let before = vertices_of(lines.drop_last());
        match parse_line_spec(lines.last()@) {
            Some(ObjLineView::V(x, y, z)) => before.push((x, y, z)),
            _ => before,
        }
    }
}

/// The faces that `lines` give, in order.
pub open spec fn faces_of(lines: Seq<String>) -> Seq<Face>
    decreases lines.len(),
{
    if lines.len() == 0 {
        Seq::empty()
    } else {
        let before = faces_of(lines.drop_last());
        match parse_line_spec(lines.last()@) {
            Some(ObjLineView::F(face)) => before.push(face),
            _ => before,
        }
    }
}

/// The coordinate texts of each vertex.
pub open spec fn vertex_views(vertices: Seq<VertexText>) -> Seq<(Seq<char>, Seq<char>, Seq<char>)> {
    Seq::new(vertices.len(), |i: int| vertices[i]@)
}

/// Reads a model from the lines of a file. Lines that give neither a
/// vertex nor a face are skipped.
pub fn read_obj(mesh_name: &str, lines: &Vec<String>) -> (model: ObjModel)
    ensures
        model.name@ == mesh_name@,
        vertex_views(model.vertices@) == vertices_of(lines@),
        model.faces@ == faces_of(lines@),
{
    let mut verts: Vec<VertexText> = Vec::new();
    let mut faces: Vec<Face> = Vec::new();
    let mut i: usize = 0;
    while i < lines.len()
        invariant
            i <= lines@.len(),
            vertex_views(verts@) == vertices_of(lines@.take(i as int)),
            faces@ == faces_of(lines@.take(i as int)),
        decreases lines@.len() - i,
    {
        proof {
            assert(lines@.take(i + 1).drop_last() =~= lines@.take(i as int));
            assert(lines@.take(i + 1).last() == lines@[i as int]);
        }
        let ghost old_verts = verts@;
        match parse_line(lines[i].as_str()) {
            Some(ObjLine::V(vertex)) => {
                verts.push(vertex);
                proof {
                    assert(vertex_views(verts@) =~= vertex_views(old_verts).push(vertex@));
                }
            },
            Some(ObjLine::F(face)) => {
                faces.push(face);
            },
            None => {},
        }
        i += 1;
    }
    proof {
        assert(lines@.take(lines@.len() as int) =~= lines@);
    }
    ObjModel { name: mesh_name.to_owned(), vertices: verts, faces: faces }
}

} // verus!
