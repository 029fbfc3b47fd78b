//! The decoder: from the bytes of a tsi document to a mesh value.
//!
//! The grammar is line oriented. Each line's first token is either a section
//! keyword (`version`, `box`, `vertex`, `triangle`, `inclusion`,
//! `exclusion`) or, within a counted section, a record's own index, which
//! must equal its position. The whole meaning of the decoder is given by the
//! spec functions here, [`decode_spec`] above all; the executable functions
//! are proved to return exactly what those functions state.

use vstd::prelude::*;

use crate::{Exclusion, Fixed, Inclusion, Triangle, Tsi, TsiView, Vec2, Vec3, Vertex};
use crate::num::{
    normalize, normalize_milli, parse_fixed, parse_fixed_tok, parse_i32, parse_i32_tok, parse_u32,
    parse_u32_tok,
};
use crate::text::{copy_range, lines_of, split_lines, tokenize, tokens_of, views_of};

verus! {

/// The error type for problems while decoding a tsi document.
#[derive(Debug)]
pub enum TsiError {
    /// A token was present but not readable as the required integer.
    ParseInt,
    /// A token was present but not readable as the required number.
    ParseFloat,
    /// An expected token, line or directive was absent.
    Missing(MissingItem),
    /// The declared version is not the supported one; carries what was found.
    InvalidVersion(Vec<u8>),
    /// A record declared an index other than its position in its section.
    IndexMismatch { found: u32, expected: u32, thing: &'static str },
    /// A directive keyword outside the recognized set; carries the token.
    UnexpectedKeyword(Vec<u8>),
}

/// Description of a missing item while decoding a tsi document.
#[derive(Debug)]
pub enum MissingItem {
    /// A token expected on the current line, by field name.
    Value(&'static str),
    /// A required top-level directive never seen, by keyword.
    Definition(&'static str),
    /// A vertex record line for this index.
    Vertex(u32),
    /// A triangle record line for this index.
    Triangle(u32),
    /// An inclusion record line for this index.
    Inclusion(u32),
    /// An exclusion record line for this index.
    Exclusion(u32),
}

/// The mathematical model of a [`MissingItem`] value.
pub ghost enum MissingView {
    Value(Seq<char>),
    Definition(Seq<char>),
    Vertex(u32),
    Triangle(u32),
    Inclusion(u32),
    Exclusion(u32),
}

/// The mathematical model of a [`TsiError`] value.
pub ghost enum ErrorView {
    ParseInt,
    ParseFloat,
    Missing(MissingView),
    InvalidVersion(Seq<u8>),
    IndexMismatch { found: u32, expected: u32, thing: Seq<char> },
    UnexpectedKeyword(Seq<u8>),
}

impl View for MissingItem {
    type V = MissingView;

    open spec fn view(&self) -> MissingView {
        match self {
            MissingItem::Value(s) => MissingView::Value(s@),
            MissingItem::Definition(s) => MissingView::Definition(s@),
            MissingItem::Vertex(i) => MissingView::Vertex(*i),
            MissingItem::Triangle(i) => MissingView::Triangle(*i),
            MissingItem::Inclusion(i) => MissingView::Inclusion(*i),
            MissingItem::Exclusion(i) => MissingView::Exclusion(*i),
        }
    }
}

impl View for TsiError {
    type V = ErrorView;

    open spec fn view(&self) -> ErrorView {
        match self {
            TsiError::ParseInt => ErrorView::ParseInt,
            TsiError::ParseFloat => ErrorView::ParseFloat,
            TsiError::Missing(m) => ErrorView::Missing(m@),
            TsiError::InvalidVersion(v) => ErrorView::InvalidVersion(v@),
            TsiError::IndexMismatch { found, expected, thing } => ErrorView::IndexMismatch {
                found: *found,
                expected: *expected,
                thing: thing@,
            },
            TsiError::UnexpectedKeyword(k) => ErrorView::UnexpectedKeyword(k@),
        }
    }
}

/// The single supported version tag, `1.1`, as bytes.
pub open spec fn supported_version() -> Seq<u8> {
    seq![49u8, 46u8, 49u8]
}

pub open spec fn kw_version() -> Seq<u8> {
    seq![118u8, 101u8, 114u8, 115u8, 105u8, 111u8, 110u8]
}

pub open spec fn kw_box() -> Seq<u8> {
    seq![98u8, 111u8, 120u8]
}

pub open spec fn kw_vertex() -> Seq<u8> {
    seq![118u8, 101u8, 114u8, 116u8, 101u8, 120u8]
}

pub open spec fn kw_triangle() -> Seq<u8> {
    seq![116u8, 114u8, 105u8, 97u8, 110u8, 103u8, 108u8, 101u8]
}

pub open spec fn kw_inclusion() -> Seq<u8> {
    seq![105u8, 110u8, 99u8, 108u8, 117u8, 115u8, 105u8, 111u8, 110u8]
}

pub open spec fn kw_exclusion() -> Seq<u8> {
    seq![101u8, 120u8, 99u8, 108u8, 117u8, 115u8, 105u8, 111u8, 110u8]
}

/// Token `i` of a line read as a `u32`: absent tokens name the missing
/// field, unreadable tokens are integer conversion failures.
pub open spec fn req_u32(toks: Seq<Seq<u8>>, i: int, desc: Seq<char>) -> Result<u32, ErrorView> {
    if toks.len() <= i {
        Err(ErrorView::Missing(MissingView::Value(desc)))
    } else {
        match parse_u32_tok(toks[i]) {
            Some(v) => Ok(v),
            None => Err(ErrorView::ParseInt),
        }
    }
}

/// Token `i` of a line read as an `i32`.
pub open spec fn req_i32(toks: Seq<Seq<u8>>, i: int, desc: Seq<char>) -> Result<i32, ErrorView> {
    if toks.len() <= i {
        Err(ErrorView::Missing(MissingView::Value(desc)))
    } else {
        match parse_i32_tok(toks[i]) {
            Some(v) => Ok(v),
            None => Err(ErrorView::ParseInt),
        }
    }
}

/// Token `i` of a line read as a fixed-point number.
pub open spec fn req_fixed(toks: Seq<Seq<u8>>, i: int, desc: Seq<char>) -> Result<
    Fixed,
    ErrorView,
> {
    if toks.len() <= i {
        Err(ErrorView::Missing(MissingView::Value(desc)))
    } else {
        match parse_fixed_tok(toks[i]) {
            Some(v) => Ok(v),
            None => Err(ErrorView::ParseFloat),
        }
    }
}

/// The declared index of a record must equal its position in the section.
pub open spec fn check_index_spec(thing: Seq<char>, found: u32, expected: u32) -> Result<
    (),
    ErrorView,
> {
    if found == expected {
        Ok(())
    } else {
        Err(ErrorView::IndexMismatch { found, expected, thing })
    }
}

/// What a vertex record line means: declared index, x, y, z, and an
/// optional trailing domain tag that defaults to `0`.
pub open spec fn vertex_line_spec(toks: Seq<Seq<u8>>, expected: u32) -> Result<Vertex, ErrorView> {
    match req_u32(toks, 0, "vertex index"@) {
        Err(e) => Err(e),
        Ok(found) => match check_index_spec("vertex"@, found, expected) {
            Err(e) => Err(e),
            Ok(_) => match req_fixed(toks, 1, "vertex x"@) {
                Err(e) => Err(e),
                Ok(x) => match req_fixed(toks, 2, "vertex y"@) {
                    Err(e) => Err(e),
                    Ok(y) => match req_fixed(toks, 3, "vertex z"@) {
                        Err(e) => Err(e),
                        Ok(z) => {
                            if toks.len() > 4 {
                                match parse_i32_tok(toks[4]) {
                                    Some(domain) => Ok(
                                        Vertex { position: Vec3 { x, y, z }, domain },
                                    ),
                                    None => Err(ErrorView::ParseInt),
                                }
                            } else {
                                Ok(Vertex { position: Vec3 { x, y, z }, domain: 0 })
                            }
                        },
                    },
                },
            },
        },
    }
}

/// What a triangle record line means: declared index, then three vertex
/// indices.
pub open spec fn triangle_line_spec(toks: Seq<Seq<u8>>, expected: u32) -> Result<
    Triangle,
    ErrorView,
> {
    match req_u32(toks, 0, "triangle index"@) {
        Err(e) => Err(e),
        Ok(found) => match check_index_spec("triangle"@, found, expected) {
            Err(e) => Err(e),
            Ok(_) => match req_u32(toks, 1, "first triangle vertex index"@) {
                Err(e) => Err(e),
                Ok(a) => match req_u32(toks, 2, "second triangle vertex index"@) {
                    Err(e) => Err(e),
                    Ok(b) => match req_u32(toks, 3, "third triangle vertex index"@) {
                        Err(e) => Err(e),
                        Ok(c) => Ok(Triangle { v0: a, v1: b, v2: c }),
                    },
                },
            },
        },
    }
}

/// What an inclusion record line means: declared index, category tag,
/// vertex index, then a raw direction vector that is unit-normalized (or
/// kept zero when its norm is zero).
pub open spec fn inclusion_line_spec(toks: Seq<Seq<u8>>, expected: u32) -> Result<
    Inclusion,
    ErrorView,
> {
    match req_u32(toks, 0, "inclusion index"@) {
        Err(e) => Err(e),
        Ok(found) => match check_index_spec("inclusion"@, found, expected) {
            Err(e) => Err(e),
            Ok(_) => match req_i32(toks, 1, "inclusion type"@) {
                Err(e) => Err(e),
                Ok(ty) => match req_u32(toks, 2, "inclusion vertex index"@) {
                    Err(e) => Err(e),
                    Ok(vertex_index) => match req_fixed(toks, 3, "inclusion vector x"@) {
                        Err(e) => Err(e),
                        Ok(x) => match req_fixed(toks, 4, "inclusion vector y"@) {
                            Err(e) => Err(e),
                            Ok(y) => {
                                let n = normalize_milli(x.milli as int, y.milli as int);
                                Ok(
                                    Inclusion {
                                        ty,
                                        vertex_index,
                                        vector: Vec2 {
                                            x: Fixed { milli: n.0 as i64 },
                                            y: Fixed { milli: n.1 as i64 },
                                        },
                                    },
                                )
                            },
                        },
                    },
                },
            },
        },
    }
}

/// What an exclusion record line means: declared index, vertex index,
/// radius.
pub open spec fn exclusion_line_spec(toks: Seq<Seq<u8>>, expected: u32) -> Result<
    Exclusion,
    ErrorView,
> {
    match req_u32(toks, 0, "exclusion index"@) {
        Err(e) => Err(e),
        Ok(found) => match check_index_spec("exclusion"@, found, expected) {
            Err(e) => Err(e),
            Ok(_) => match req_u32(toks, 1, "exclusion vertex index"@) {
                Err(e) => Err(e),
                Ok(vertex_index) => match req_fixed(toks, 2, "exclusion radius"@) {
                    Err(e) => Err(e),
                    Ok(radius) => Ok(Exclusion { vertex_index, radius }),
                },
            },
        },
    }
}

fn missing_item_value(desc: &'static str) -> (r: TsiError)
    ensures
        r@ == ErrorView::Missing(MissingView::Value(desc@)),
{
    TsiError::Missing(MissingItem::Value(desc))
}

/// Declared-index check shared by all record kinds.
pub fn check_index(thing: &'static str, found: u32, expected: u32) -> (r: Result<(), TsiError>)
    ensures
        match r {
            Ok(u) => check_index_spec(thing@, found, expected) == Ok::<(), ErrorView>(u),
            Err(e) => check_index_spec(thing@, found, expected) == Err::<(), ErrorView>(e@),
        },
{
    if found == expected {
        Ok(())
    } else {
        Err(TsiError::IndexMismatch { found, expected, thing })
    }
}

fn get_u32(toks: &Vec<Vec<u8>>, i: usize, desc: &'static str) -> (r: Result<u32, TsiError>)
    ensures
        match r {
            Ok(v) => req_u32(views_of(toks@), i as int, desc@) == Ok::<u32, ErrorView>(v),
            Err(e) => req_u32(views_of(toks@), i as int, desc@) == Err::<u32, ErrorView>(e@),
        },
{
    if i >= toks.len() {
        Err(missing_item_value(desc))
    } else {
        assert(views_of(toks@)[i as int] == toks@[i as int]@);
        match parse_u32(toks[i].as_slice()) {
            Some(v) => Ok(v),
            None => Err(TsiError::ParseInt),
        }
    }
}

fn get_i32(toks: &Vec<Vec<u8>>, i: usize, desc: &'static str) -> (r: Result<i32, TsiError>)
    ensures
        match r {
            Ok(v) => req_i32(views_of(toks@), i as int, desc@) == Ok::<i32, ErrorView>(v),
            Err(e) => req_i32(views_of(toks@), i as int, desc@) == Err::<i32, ErrorView>(e@),
        },
{
    if i >= toks.len() {
        Err(missing_item_value(desc))
    } else {
        assert(views_of(toks@)[i as int] == toks@[i as int]@);
        match parse_i32(toks[i].as_slice()) {
            Some(v) => Ok(v),
            None => Err(TsiError::ParseInt),
        }
    }
}

fn get_fixed(toks: &Vec<Vec<u8>>, i: usize, desc: &'static str) -> (r: Result<Fixed, TsiError>)
    ensures
        match r {
            Ok(v) => req_fixed(views_of(toks@), i as int, desc@) == Ok::<Fixed, ErrorView>(v),
            Err(e) => req_fixed(views_of(toks@), i as int, desc@) == Err::<Fixed, ErrorView>(e@),
        },
{
    if i >= toks.len() {
        Err(missing_item_value(desc))
    } else {
        assert(views_of(toks@)[i as int] == toks@[i as int]@);
        match parse_fixed(toks[i].as_slice()) {
            Some(v) => Ok(v),
            None => Err(TsiError::ParseFloat),
        }
    }
}

/// Decodes one vertex record line, as [`vertex_line_spec`] states.
pub fn parse_vertex_line(line: &[u8], expected_idx: u32) -> (r: Result<Vertex, TsiError>)
    ensures
        match r {
            Ok(v) => vertex_line_spec(tokens_of(line@), expected_idx) == Ok::<
                Vertex,
                ErrorView,
            >(v),
            Err(e) => vertex_line_spec(tokens_of(line@), expected_idx) == Err::<
                Vertex,
                ErrorView,
            >(e@),
        },
{
    let toks = tokenize(line);
    let found_idx = match get_u32(&toks, 0, "vertex index") {
        Ok(v) => v,
        Err(e) => {
            return Err(e);
        },
    };
    match check_index("vertex", found_idx, expected_idx) {
        Ok(_) => {},
        Err(e) => {
            return Err(e);
        },
    }
    let x = match get_fixed(&toks, 1, "vertex x") {
        Ok(v) => v,
        Err(e) => {
            return Err(e);
        },
    };
    let y = match get_fixed(&toks, 2, "vertex y") {
        Ok(v) => v,
        Err(e) => {
            return Err(e);
        },
    };
    let z = match get_fixed(&toks, 3, "vertex z") {
        Ok(v) => v,
        Err(e) => {
            return Err(e);
        },
    };
    // The domain may be absent, implying it is set to 0.
    let domain: i32 = if toks.len() > 4 {
        assert(views_of(toks@)[4] == toks@[4]@);
        match parse_i32(toks[4].as_slice()) {
            Some(d) => d,
            None => {
                return Err(TsiError::ParseInt);
            },
        }
    } else {
        0
    };
    Ok(Vertex { position: Vec3 { x, y, z }, domain })
}

/// Decodes one triangle record line, as [`triangle_line_spec`] states.
pub fn parse_triangle_line(line: &[u8], expected_idx: u32) -> (r: Result<Triangle, TsiError>)
    ensures
        match r {
            Ok(v) => triangle_line_spec(tokens_of(line@), expected_idx) == Ok::<
                Triangle,
                ErrorView,
            >(v),
            Err(e) => triangle_line_spec(tokens_of(line@), expected_idx) == Err::<
                Triangle,
                ErrorView,
            >(e@),
        },
{
    let toks = tokenize(line);
    let found_idx = match get_u32(&toks, 0, "triangle index") {
        Ok(v) => v,
        Err(e) => {
            return Err(e);
        },
    };
    match check_index("triangle", found_idx, expected_idx) {
        Ok(_) => {},
        Err(e) => {
            return Err(e);
        },
    }
    let a = match get_u32(&toks, 1, "first triangle vertex index") {
        Ok(v) => v,
        Err(e) => {
            return Err(e);
        },
    };
    let b = match get_u32(&toks, 2, "second triangle vertex index") {
        Ok(v) => v,
        Err(e) => {
            return Err(e);
        },
    };
    let c = match get_u32(&toks, 3, "third triangle vertex index") {
        Ok(v) => v,
        Err(e) => {
            return Err(e);
        },
    };
    Ok(Triangle { v0: a, v1: b, v2: c })
}

/// Decodes one inclusion record line, as [`inclusion_line_spec`] states.
pub fn parse_inclusion_line(line: &[u8], expected_idx: u32) -> (r: Result<Inclusion, TsiError>)
    ensures
        match r {
            Ok(v) => inclusion_line_spec(tokens_of(line@), expected_idx) == Ok::<
                Inclusion,
                ErrorView,
            >(v),
            Err(e) => inclusion_line_spec(tokens_of(line@), expected_idx) == Err::<
                Inclusion,
                ErrorView,
            >(e@),
        },
{
    let toks = tokenize(line);
    let found_idx = match get_u32(&toks, 0, "inclusion index") {
        Ok(v) => v,
        Err(e) => {
            return Err(e);
        },
    };
    match check_index("inclusion", found_idx, expected_idx) {
        Ok(_) => {},
        Err(e) => {
            return Err(e);
        },
    }
    let ty = match get_i32(&toks, 1, "inclusion type") {
        Ok(v) => v,
        Err(e) => {
            return Err(e);
        },
    };
    let vertex_index = match get_u32(&toks, 2, "inclusion vertex index") {
        Ok(v) => v,
        Err(e) => {
            return Err(e);
        },
    };
    let x = match get_fixed(&toks, 3, "inclusion vector x") {
        Ok(v) => v,
        Err(e) => {
            return Err(e);
        },
    };
    let y = match get_fixed(&toks, 4, "inclusion vector y") {
        Ok(v) => v,
        Err(e) => {
            return Err(e);
        },
    };
    let n = normalize(x.milli, y.milli);
    Ok(
        Inclusion {
            ty,
            vertex_index,
            vector: Vec2 { x: Fixed { milli: n.0 }, y: Fixed { milli: n.1 } },
        },
    )
}

/// Decodes one exclusion record line, as [`exclusion_line_spec`] states.
pub fn parse_exclusion_line(line: &[u8], expected_idx: u32) -> (r: Result<Exclusion, TsiError>)
    ensures
        match r {
            Ok(v) => exclusion_line_spec(tokens_of(line@), expected_idx) == Ok::<
                Exclusion,
                ErrorView,
            >(v),
            Err(e) => exclusion_line_spec(tokens_of(line@), expected_idx) == Err::<
                Exclusion,
                ErrorView,
            >(e@),
        },
{
    let toks = tokenize(line);
    let found_idx = match get_u32(&toks, 0, "exclusion index") {
        Ok(v) => v,
        Err(e) => {
            return Err(e);
        },
    };
    match check_index("exclusion", found_idx, expected_idx) {
        Ok(_) => {},
        Err(e) => {
            return Err(e);
        },
    }
    let vertex_index = match get_u32(&toks, 1, "exclusion vertex index") {
        Ok(v) => v,
        Err(e) => {
            return Err(e);
        },
    };
    let radius = match get_fixed(&toks, 2, "exclusion radius") {
        Ok(v) => v,
        Err(e) => {
            return Err(e);
        },
    };
    Ok(Exclusion { vertex_index, radius })
}

/// The decoder's running state: what has been seen so far.
pub ghost struct DecodeState {
    pub version: Option<Seq<u8>>,
    pub dimensions: Option<Vec3>,
    pub vertices: Seq<Vertex>,
    pub triangles: Seq<Triangle>,
    pub inclusions: Seq<Inclusion>,
    pub exclusions: Seq<Exclusion>,
}

/// Nothing seen yet; sections whose keyword never occurs stay empty.
pub open spec fn init_state() -> DecodeState {
    DecodeState {
        version: None,
        dimensions: None,
        vertices: Seq::empty(),
        triangles: Seq::empty(),
        inclusions: Seq::empty(),
        exclusions: Seq::empty(),
    }
}

/// The end-of-stream checks: a version equal to the supported one and box
/// dimensions must have been declared.
pub open spec fn finish(st: DecodeState) -> Result<TsiView, ErrorView> {
    match st.version {
        None => Err(ErrorView::Missing(MissingView::Definition("version"@))),
        Some(v) => {
            if v != supported_version() {
                Err(ErrorView::InvalidVersion(v))
            } else {
                match st.dimensions {
                    None => Err(ErrorView::Missing(MissingView::Definition("box"@))),
                    Some(d) => Ok(
                        TsiView {
                            dimensions: d,
                            vertices: st.vertices,
                            triangles: st.triangles,
                            inclusions: st.inclusions,
                            exclusions: st.exclusions,
                        },
                    ),
                }
            }
        },
    }
}

/// The records of a vertex section: record `idx` up to record `n - 1`, one
/// line each, each line carrying its own index.
pub open spec fn vertex_records(lines: Seq<Seq<u8>>, idx: u32, n: u32) -> Result<
    Seq<Vertex>,
    ErrorView,
>
    decreases n - idx,
{
    if idx >= n {
        Ok(Seq::empty())
    } else if lines.len() == 0 {
        Err(ErrorView::Missing(MissingView::Vertex(idx)))
    } else {
        match vertex_line_spec(tokens_of(lines[0]), idx) {
            Err(e) => Err(e),
            Ok(v) => match vertex_records(lines.skip(1), (idx + 1) as u32, n) {
                Ok(rest) => Ok(seq![v] + rest),
                Err(e) => Err(e),
            },
        }
    }
}

/// The records of a triangle section.
pub open spec fn triangle_records(lines: Seq<Seq<u8>>, idx: u32, n: u32) -> Result<
    Seq<Triangle>,
    ErrorView,
>
    decreases n - idx,
{
    if idx >= n {
        Ok(Seq::empty())
    } else if lines.len() == 0 {
        Err(ErrorView::Missing(MissingView::Triangle(idx)))
    } else {
        match triangle_line_spec(tokens_of(lines[0]), idx) {
            Err(e) => Err(e),
            Ok(v) => match triangle_records(lines.skip(1), (idx + 1) as u32, n) {
                Ok(rest) => Ok(seq![v] + rest),
                Err(e) => Err(e),
            },
        }
    }
}

/// The records of an inclusion section.
pub open spec fn inclusion_records(lines: Seq<Seq<u8>>, idx: u32, n: u32) -> Result<
    Seq<Inclusion>,
    ErrorView,
>
    decreases n - idx,
{
    if idx >= n {
        Ok(Seq::empty())
    } else if lines.len() == 0 {
        Err(ErrorView::Missing(MissingView::Inclusion(idx)))
    } else {
        match inclusion_line_spec(tokens_of(lines[0]), idx) {
            Err(e) => Err(e),
            Ok(v) => match inclusion_records(lines.skip(1), (idx + 1) as u32, n) {
                Ok(rest) => Ok(seq![v] + rest),
                Err(e) => Err(e),
            },
        }
    }
}

/// The records of an exclusion section.
pub open spec fn exclusion_records(lines: Seq<Seq<u8>>, idx: u32, n: u32) -> Result<
    Seq<Exclusion>,
    ErrorView,
>
    decreases n - idx,
{
    if idx >= n {
        Ok(Seq::empty())
    } else if lines.len() == 0 {
        Err(ErrorView::Missing(MissingView::Exclusion(idx)))
    } else {
        match exclusion_line_spec(tokens_of(lines[0]), idx) {
            Err(e) => Err(e),
            Ok(v) => match exclusion_records(lines.skip(1), (idx + 1) as u32, n) {
                Ok(rest) => Ok(seq![v] + rest),
                Err(e) => Err(e),
            },
        }
    }
}

/// A successful section consumed one line per record.
pub proof fn lemma_vertex_records_len(lines: Seq<Seq<u8>>, idx: u32, n: u32)
    ensures
        vertex_records(lines, idx, n) is Ok ==> lines.len() + idx >= n,
    decreases n - idx,
{
    if idx < n && lines.len() > 0 {
        if vertex_line_spec(tokens_of(lines[0]), idx) is Ok {
            lemma_vertex_records_len(lines.skip(1), (idx + 1) as u32, n);
        }
    }
}

/// A successful section consumed one line per record.
pub proof fn lemma_triangle_records_len(lines: Seq<Seq<u8>>, idx: u32, n: u32)
    ensures
        triangle_records(lines, idx, n) is Ok ==> lines.len() + idx >= n,
    decreases n - idx,
{
    if idx < n && lines.len() > 0 {
        if triangle_line_spec(tokens_of(lines[0]), idx) is Ok {
            lemma_triangle_records_len(lines.skip(1), (idx + 1) as u32, n);
        }
    }
}

/// A successful section consumed one line per record.
pub proof fn lemma_inclusion_records_len(lines: Seq<Seq<u8>>, idx: u32, n: u32)
    ensures
        inclusion_records(lines, idx, n) is Ok ==> lines.len() + idx >= n,
    decreases n - idx,
{
    if idx < n && lines.len() > 0 {
        if inclusion_line_spec(tokens_of(lines[0]), idx) is Ok {
            lemma_inclusion_records_len(lines.skip(1), (idx + 1) as u32, n);
        }
    }
}

/// A successful section consumed one line per record.
pub proof fn lemma_exclusion_records_len(lines: Seq<Seq<u8>>, idx: u32, n: u32)
    ensures
        exclusion_records(lines, idx, n) is Ok ==> lines.len() + idx >= n,
    decreases n - idx,
{
    if idx < n && lines.len() > 0 {
        if exclusion_line_spec(tokens_of(lines[0]), idx) is Ok {
            lemma_exclusion_records_len(lines.skip(1), (idx + 1) as u32, n);
        }
    }
}

/// What the remaining lines mean, given what has been seen: directives are
/// taken in any order, a later section or version replaces an earlier one,
/// and the end-of-stream checks run when no line is left.
pub open spec fn decode_lines(lines: Seq<Seq<u8>>, st: DecodeState) -> Result<TsiView, ErrorView>
    decreases lines.len(),
    via decode_lines_decreases
{
    if lines.len() == 0 {
        finish(st)
    } else {
        let toks = tokens_of(lines[0]);
        if toks.len() == 0 {
            Err(ErrorView::Missing(MissingView::Value("section keyword"@)))
        } else {
            let kw = toks[0];
            if kw == kw_version() {
                if toks.len() < 2 {
                    Err(ErrorView::Missing(MissingView::Value("version tag"@)))
                } else {
                    decode_lines(
                        lines.skip(1),
                        DecodeState { version: Some(toks[1]), ..st },
                    )
                }
            } else if kw == kw_box() {
                match req_fixed(toks, 1, "box x"@) {
                    Err(e) => Err(e),
                    Ok(x) => match req_fixed(toks, 2, "box y"@) {
                        Err(e) => Err(e),
                        Ok(y) => match req_fixed(toks, 3, "box z"@) {
                            Err(e) => Err(e),
                            Ok(z) => decode_lines(
                                lines.skip(1),
                                DecodeState { dimensions: Some(Vec3 { x, y, z }), ..st },
                            ),
                        },
                    },
                }
            } else if kw == kw_vertex() {
                match req_u32(toks, 1, "vertex count"@) {
                    Err(e) => Err(e),
                    Ok(n) => match vertex_records(lines.skip(1), 0, n) {
                        Err(e) => Err(e),
                        Ok(vs) => decode_lines(
                            lines.skip(1 + n as int),
                            DecodeState { vertices: vs, ..st },
                        ),
                    },
                }
            } else if kw == kw_triangle() {
                match req_u32(toks, 1, "triangle count"@) {
                    Err(e) => Err(e),
                    Ok(n) => match triangle_records(lines.skip(1), 0, n) {
                        Err(e) => Err(e),
                        Ok(vs) => decode_lines(
                            lines.skip(1 + n as int),
                            DecodeState { triangles: vs, ..st },
                        ),
                    },
                }
            } else if kw == kw_inclusion() {
                match req_u32(toks, 1, "inclusion count"@) {
                    Err(e) => Err(e),
                    Ok(n) => match inclusion_records(lines.skip(1), 0, n) {
                        Err(e) => Err(e),
                        Ok(vs) => decode_lines(
                            lines.skip(1 + n as int),
                            DecodeState { inclusions: vs, ..st },
                        ),
                    },
                }
            } else if kw == kw_exclusion() {
                match req_u32(toks, 1, "exclusion count"@) {
                    Err(e) => Err(e),
                    Ok(n) => match exclusion_records(lines.skip(1), 0, n) {
                        Err(e) => Err(e),
                        Ok(vs) => decode_lines(
                            lines.skip(1 + n as int),
                            DecodeState { exclusions: vs, ..st },
                        ),
                    },
                }
            } else {
                Err(ErrorView::UnexpectedKeyword(kw))
            }
        }
    }
}

#[via_fn]
proof fn decode_lines_decreases(lines: Seq<Seq<u8>>, st: DecodeState) {
    if lines.len() > 0 {
        let toks = tokens_of(lines[0]);
        if toks.len() > 0 {
            let kw = toks[0];
            if kw == kw_vertex() {
                if let Ok(n) = req_u32(toks, 1, "vertex count"@) {
                    lemma_vertex_records_len(lines.skip(1), 0, n);
                }
            } else if kw == kw_triangle() {
                if let Ok(n) = req_u32(toks, 1, "triangle count"@) {
                    lemma_triangle_records_len(lines.skip(1), 0, n);
                }
            } else if kw == kw_inclusion() {
                if let Ok(n) = req_u32(toks, 1, "inclusion count"@) {
                    lemma_inclusion_records_len(lines.skip(1), 0, n);
                }
            } else if kw == kw_exclusion() {
                if let Ok(n) = req_u32(toks, 1, "exclusion count"@) {
                    lemma_exclusion_records_len(lines.skip(1), 0, n);
                }
            }
        }
    }
}

/// What a whole tsi document means: its lines, decoded from nothing seen.
pub open spec fn decode_spec(input: Seq<u8>) -> Result<TsiView, ErrorView> {
    decode_lines(lines_of(input), init_state())
}

/// Whether two byte strings hold the same bytes.
fn bytes_eq(a: &[u8], b: &[u8]) -> (r: bool)
    ensures
        r == (a@ == b@),
{
    if a.len() != b.len() {
        return false;
    }
    let mut i: usize = 0;
    while i < a.len()
        invariant
            i <= a@.len(),
            a@.len() == b@.len(),
            forall|j: int| 0 <= j < i ==> a@[j] == b@[j],
        decreases a@.len() - i,
    {
        if a[i] != b[i] {
            return false;
        }
        i += 1;
    }
    proof {
        assert(a@ =~= b@);
    }
    true
}

pub(crate) fn kw_version_vec() -> (v: Vec<u8>)
    ensures
        v@ == kw_version(),
{
    let mut v: Vec<u8> = Vec::new();
    v.push(118);
    v.push(101);
    v.push(114);
    v.push(115);
    v.push(105);
    v.push(111);
    v.push(110);
    proof {
        assert(v@ =~= kw_version());
    }
    v
}

pub(crate) fn kw_box_vec() -> (v: Vec<u8>)
    ensures
        v@ == kw_box(),
{
    let mut v: Vec<u8> = Vec::new();
    v.push(98);
    v.push(111);
    v.push(120);
    proof {
        assert(v@ =~= kw_box());
    }
    v
}

pub(crate) fn kw_vertex_vec() -> (v: Vec<u8>)
    ensures
        v@ == kw_vertex(),
{
    let mut v: Vec<u8> = Vec::new();
    v.push(118);
    v.push(101);
    v.push(114);
    v.push(116);
    v.push(101);
    v.push(120);
    proof {
        assert(v@ =~= kw_vertex());
    }
    v
}

pub(crate) fn kw_triangle_vec() -> (v: Vec<u8>)
    ensures
        v@ == kw_triangle(),
{
    let mut v: Vec<u8> = Vec::new();
    v.push(116);
    v.push(114);
    v.push(105);
    v.push(97);
    v.push(110);
    v.push(103);
    v.push(108);
    v.push(101);
    proof {
        assert(v@ =~= kw_triangle());
    }
    v
}

pub(crate) fn kw_inclusion_vec() -> (v: Vec<u8>)
    ensures
        v@ == kw_inclusion(),
{
    let mut v: Vec<u8> = Vec::new();
    v.push(105);
    v.push(110);
    v.push(99);
    v.push(108);
    v.push(117);
    v.push(115);
    v.push(105);
    v.push(111);
    v.push(110);
    proof {
        assert(v@ =~= kw_inclusion());
    }
    v
}

pub(crate) fn kw_exclusion_vec() -> (v: Vec<u8>)
    ensures
        v@ == kw_exclusion(),
{
    let mut v: Vec<u8> = Vec::new();
    v.push(101);
    v.push(120);
    v.push(99);
    v.push(108);
    v.push(117);
    v.push(115);
    v.push(105);
    v.push(111);
    v.push(110);
    proof {
        assert(v@ =~= kw_exclusion());
    }
    v
}

pub(crate) fn supported_version_vec() -> (v: Vec<u8>)
    ensures
        v@ == supported_version(),
{
    let mut v: Vec<u8> = Vec::new();
    v.push(49);
    v.push(46);
    v.push(49);
    proof {
        assert(v@ =~= supported_version());
    }
    v
}

/// Reads the `n` record lines of a vertex section beginning at `start`, as
/// [`vertex_records`] states; on success also returns the position after
/// the section.
fn read_vertex_section(lines: &Vec<Vec<u8>>, start: usize, n: u32) -> (r: Result<
    (Vec<Vertex>, usize),
    TsiError,
>)
    requires
        start <= lines@.len(),
    ensures
        match r {
            Ok(p) => vertex_records(views_of(lines@).skip(start as int), 0, n) == Ok::<
                Seq<Vertex>,
                ErrorView,
            >(p.0@) && p.1 == start + n && p.1 <= lines@.len(),
            Err(e) => vertex_records(views_of(lines@).skip(start as int), 0, n) == Err::<
                Seq<Vertex>,
                ErrorView,
            >(e@),
        },
{
    let ghost all = views_of(lines@);
    let ghost sect = all.skip(start as int);
    let mut vs: Vec<Vertex> = Vec::new();
    let mut idx: u32 = 0;
    let mut cur: usize = start;
    proof {
        assert(vs@ =~= Seq::<Vertex>::empty());
    }
    while idx < n
        invariant
            start <= cur <= lines@.len(),
            cur == start + idx,
            idx <= n,
            all == views_of(lines@),
            sect == all.skip(start as int),
            vertex_records(sect, 0, n) == (match vertex_records(all.skip(cur as int), idx, n) {
                Ok(rest) => Ok::<Seq<Vertex>, ErrorView>(vs@ + rest),
                Err(e) => Err::<Seq<Vertex>, ErrorView>(e),
            }),
        decreases n - idx,
    {
        let ghost tail = all.skip(cur as int);
        if cur >= lines.len() {
            proof {
                assert(tail.len() == 0);
                assert(vertex_records(tail, idx, n) == Err::<Seq<Vertex>, ErrorView>(
                    ErrorView::Missing(MissingView::Vertex(idx)),
                ));
            }
            return Err(TsiError::Missing(MissingItem::Vertex(idx)));
        }
        proof {
            assert(all[cur as int] == lines@[cur as int]@);
            assert(tail[0] == all[cur as int]);
            assert(tail.skip(1) =~= all.skip(cur + 1));
        }
        match parse_vertex_line(lines[cur].as_slice(), idx) {
            Ok(v) => {
                proof {
                    let inner = vertex_records(tail.skip(1), (idx + 1) as u32, n);
                    assert(vertex_records(tail, idx, n) == (match inner {
                        Ok(rest) => Ok::<Seq<Vertex>, ErrorView>(seq![v] + rest),
                        Err(e) => Err::<Seq<Vertex>, ErrorView>(e),
                    }));
                    match inner {
                        Ok(rest) => {
                            assert(vs@ + (seq![v] + rest) =~= vs@.push(v) + rest);
                        },
                        Err(_) => {},
                    }
                }
                vs.push(v);
                idx += 1;
                cur += 1;
            },
            Err(e) => {
                proof {
                    assert(vertex_records(tail, idx, n) == Err::<Seq<Vertex>, ErrorView>(e@));
                }
                return Err(e);
            },
        }
    }
    proof {
        assert(vertex_records(all.skip(cur as int), idx, n) == Ok::<Seq<Vertex>, ErrorView>(
            Seq::empty(),
        ));
        assert(vs@ + Seq::<Vertex>::empty() =~= vs@);
    }
    Ok((vs, cur))
}

/// Reads the `n` record lines of a triangle section beginning at `start`,
/// as [`triangle_records`] states.
fn read_triangle_section(lines: &Vec<Vec<u8>>, start: usize, n: u32) -> (r: Result<
    (Vec<Triangle>, usize),
    TsiError,
>)
    requires
        start <= lines@.len(),
    ensures
        match r {
            Ok(p) => triangle_records(views_of(lines@).skip(start as int), 0, n) == Ok::<
                Seq<Triangle>,
                ErrorView,
            >(p.0@) && p.1 == start + n && p.1 <= lines@.len(),
            Err(e) => triangle_records(views_of(lines@).skip(start as int), 0, n) == Err::<
                Seq<Triangle>,
                ErrorView,
            >(e@),
        },
{
    let ghost all = views_of(lines@);
    let ghost sect = all.skip(start as int);
    let mut vs: Vec<Triangle> = Vec::new();
    let mut idx: u32 = 0;
    let mut cur: usize = start;
    proof {
        assert(vs@ =~= Seq::<Triangle>::empty());
    }
    while idx < n
        invariant
            start <= cur <= lines@.len(),
            cur == start + idx,
            idx <= n,
            all == views_of(lines@),
            sect == all.skip(start as int),
            triangle_records(sect, 0, n) == (match triangle_records(all.skip(cur as int), idx, n) {
                Ok(rest) => Ok::<Seq<Triangle>, ErrorView>(vs@ + rest),
                Err(e) => Err::<Seq<Triangle>, ErrorView>(e),
            }),
        decreases n - idx,
    {
        let ghost tail = all.skip(cur as int);
        if cur >= lines.len() {
            proof {
                assert(tail.len() == 0);
                assert(triangle_records(tail, idx, n) == Err::<Seq<Triangle>, ErrorView>(
                    ErrorView::Missing(MissingView::Triangle(idx)),
                ));
            }
            return Err(TsiError::Missing(MissingItem::Triangle(idx)));
        }
        proof {
            assert(all[cur as int] == lines@[cur as int]@);
            assert(tail[0] == all[cur as int]);
            assert(tail.skip(1) =~= all.skip(cur + 1));
        }
        match parse_triangle_line(lines[cur].as_slice(), idx) {
            Ok(v) => {
                proof {
                    let inner = triangle_records(tail.skip(1), (idx + 1) as u32, n);
                    assert(triangle_records(tail, idx, n) == (match inner {
                        Ok(rest) => Ok::<Seq<Triangle>, ErrorView>(seq![v] + rest),
                        Err(e) => Err::<Seq<Triangle>, ErrorView>(e),
                    }));
                    match inner {
                        Ok(rest) => {
                            assert(vs@ + (seq![v] + rest) =~= vs@.push(v) + rest);
                        },
                        Err(_) => {},
                    }
                }
                vs.push(v);
                idx += 1;
                cur += 1;
            },
            Err(e) => {
                proof {
                    assert(triangle_records(tail, idx, n) == Err::<Seq<Triangle>, ErrorView>(e@));
                }
                return Err(e);
            },
        }
    }
    proof {
        assert(triangle_records(all.skip(cur as int), idx, n) == Ok::<Seq<Triangle>, ErrorView>(
            Seq::empty(),
        ));
        assert(vs@ + Seq::<Triangle>::empty() =~= vs@);
    }
    Ok((vs, cur))
}

/// Reads the `n` record lines of an inclusion section beginning at `start`,
/// as [`inclusion_records`] states.
fn read_inclusion_section(lines: &Vec<Vec<u8>>, start: usize, n: u32) -> (r: Result<
    (Vec<Inclusion>, usize),
    TsiError,
>)
    requires
        start <= lines@.len(),
    ensures
        match r {
            Ok(p) => inclusion_records(views_of(lines@).skip(start as int), 0, n) == Ok::<
                Seq<Inclusion>,
                ErrorView,
            >(p.0@) && p.1 == start + n && p.1 <= lines@.len(),
            Err(e) => inclusion_records(views_of(lines@).skip(start as int), 0, n) == Err::<
                Seq<Inclusion>,
                ErrorView,
            >(e@),
        },
{
    let ghost all = views_of(lines@);
    let ghost sect = all.skip(start as int);
    let mut vs: Vec<Inclusion> = Vec::new();
    let mut idx: u32 = 0;
    let mut cur: usize = start;
    proof {
        assert(vs@ =~= Seq::<Inclusion>::empty());
    }
    while idx < n
        invariant
            start <= cur <= lines@.len(),
            cur == start + idx,
            idx <= n,
            all == views_of(lines@),
            sect == all.skip(start as int),
            inclusion_records(sect, 0, n) == (match inclusion_records(
                all.skip(cur as int),
                idx,
                n,
            ) {
                Ok(rest) => Ok::<Seq<Inclusion>, ErrorView>(vs@ + rest),
                Err(e) => Err::<Seq<Inclusion>, ErrorView>(e),
            }),
        decreases n - idx,
    {
        let ghost tail = all.skip(cur as int);
        if cur >= lines.len() {
            proof {
                assert(tail.len() == 0);
                assert(inclusion_records(tail, idx, n) == Err::<Seq<Inclusion>, ErrorView>(
                    ErrorView::Missing(MissingView::Inclusion(idx)),
                ));
            }
            return Err(TsiError::Missing(MissingItem::Inclusion(idx)));
        }
        proof {
            assert(all[cur as int] == lines@[cur as int]@);
            assert(tail[0] == all[cur as int]);
            assert(tail.skip(1) =~= all.skip(cur + 1));
        }
        match parse_inclusion_line(lines[cur].as_slice(), idx) {
            Ok(v) => {
                proof {
                    let inner = inclusion_records(tail.skip(1), (idx + 1) as u32, n);
                    assert(inclusion_records(tail, idx, n) == (match inner {
                        Ok(rest) => Ok::<Seq<Inclusion>, ErrorView>(seq![v] + rest),
                        Err(e) => Err::<Seq<Inclusion>, ErrorView>(e),
                    }));
                    match inner {
                        Ok(rest) => {
                            assert(vs@ + (seq![v] + rest) =~= vs@.push(v) + rest);
                        },
                        Err(_) => {},
                    }
                }
                vs.push(v);
                idx += 1;
                cur += 1;
            },
            Err(e) => {
                proof {
                    assert(inclusion_records(tail, idx, n) == Err::<Seq<Inclusion>, ErrorView>(
                        e@,
                    ));
                }
                return Err(e);
            },
        }
    }
    proof {
        assert(inclusion_records(all.skip(cur as int), idx, n) == Ok::<Seq<Inclusion>, ErrorView>(
            Seq::empty(),
        ));
        assert(vs@ + Seq::<Inclusion>::empty() =~= vs@);
    }
    Ok((vs, cur))
}

/// Reads the `n` record lines of an exclusion section beginning at `start`,
/// as [`exclusion_records`] states.
fn read_exclusion_section(lines: &Vec<Vec<u8>>, start: usize, n: u32) -> (r: Result<
    (Vec<Exclusion>, usize),
    TsiError,
>)
    requires
        start <= lines@.len(),
    ensures
        match r {
            Ok(p) => exclusion_records(views_of(lines@).skip(start as int), 0, n) == Ok::<
                Seq<Exclusion>,
                ErrorView,
            >(p.0@) && p.1 == start + n && p.1 <= lines@.len(),
            Err(e) => exclusion_records(views_of(lines@).skip(start as int), 0, n) == Err::<
                Seq<Exclusion>,
                ErrorView,
            >(e@),
        },
{
    let ghost all = views_of(lines@);
    let ghost sect = all.skip(start as int);
    let mut vs: Vec<Exclusion> = Vec::new();
    let mut idx: u32 = 0;
    let mut cur: usize = start;
    proof {
        assert(vs@ =~= Seq::<Exclusion>::empty());
    }
    while idx < n
        invariant
            start <= cur <= lines@.len(),
            cur == start + idx,
            idx <= n,
            all == views_of(lines@),
            sect == all.skip(start as int),
            exclusion_records(sect, 0, n) == (match exclusion_records(
                all.skip(cur as int),
                idx,
                n,
            ) {
                Ok(rest) => Ok::<Seq<Exclusion>, ErrorView>(vs@ + rest),
                Err(e) => Err::<Seq<Exclusion>, ErrorView>(e),
            }),
        decreases n - idx,
    {
        let ghost tail = all.skip(cur as int);
        if cur >= lines.len() {
            proof {
                assert(tail.len() == 0);
                assert(exclusion_records(tail, idx, n) == Err::<Seq<Exclusion>, ErrorView>(
                    ErrorView::Missing(MissingView::Exclusion(idx)),
                ));
            }
            return Err(TsiError::Missing(MissingItem::Exclusion(idx)));
        }
        proof {
            assert(all[cur as int] == lines@[cur as int]@);
            assert(tail[0] == all[cur as int]);
            assert(tail.skip(1) =~= all.skip(cur + 1));
        }
        match parse_exclusion_line(lines[cur].as_slice(), idx) {
            Ok(v) => {
                proof {
                    let inner = exclusion_records(tail.skip(1), (idx + 1) as u32, n);
                    assert(exclusion_records(tail, idx, n) == (match inner {
                        Ok(rest) => Ok::<Seq<Exclusion>, ErrorView>(seq![v] + rest),
                        Err(e) => Err::<Seq<Exclusion>, ErrorView>(e),
                    }));
                    match inner {
                        Ok(rest) => {
                            assert(vs@ + (seq![v] + rest) =~= vs@.push(v) + rest);
                        },
                        Err(_) => {},
                    }
                }
                vs.push(v);
                idx += 1;
                cur += 1;
            },
            Err(e) => {
                proof {
                    assert(exclusion_records(tail, idx, n) == Err::<Seq<Exclusion>, ErrorView>(
                        e@,
                    ));
                }
                return Err(e);
            },
        }
    }
    proof {
        assert(exclusion_records(all.skip(cur as int), idx, n) == Ok::<Seq<Exclusion>, ErrorView>(
            Seq::empty(),
        ));
        assert(vs@ + Seq::<Exclusion>::empty() =~= vs@);
    }
    Ok((vs, cur))
}

/// An empty line cannot introduce a directive.
proof fn lemma_step_no_keyword(lines: Seq<Seq<u8>>, st: DecodeState)
    requires
        lines.len() > 0,
        tokens_of(lines[0]).len() == 0,
    ensures
        decode_lines(lines, st) == Err::<TsiView, ErrorView>(
            ErrorView::Missing(MissingView::Value("section keyword"@)),
        ),
{
}

/// A `version` directive without a tag fails.
proof fn lemma_step_version_missing(lines: Seq<Seq<u8>>, st: DecodeState)
    requires
        lines.len() > 0,
        tokens_of(lines[0]).len() == 1,
        tokens_of(lines[0])[0] == kw_version(),
    ensures
        decode_lines(lines, st) == Err::<TsiView, ErrorView>(
            ErrorView::Missing(MissingView::Value("version tag"@)),
        ),
{
}

/// A `version` directive records its tag and moves on.
proof fn lemma_step_version(lines: Seq<Seq<u8>>, st: DecodeState)
    requires
        lines.len() > 0,
        tokens_of(lines[0]).len() >= 2,
        tokens_of(lines[0])[0] == kw_version(),
    ensures
        decode_lines(lines, st) == decode_lines(
            lines.skip(1),
            DecodeState { version: Some(tokens_of(lines[0])[1]), ..st },
        ),
{
}

/// An unrecognized directive keyword fails, carrying the token.
proof fn lemma_step_unexpected(lines: Seq<Seq<u8>>, st: DecodeState)
    requires
        lines.len() > 0,
        tokens_of(lines[0]).len() > 0,
        tokens_of(lines[0])[0] != kw_version(),
        tokens_of(lines[0])[0] != kw_box(),
        tokens_of(lines[0])[0] != kw_vertex(),
        tokens_of(lines[0])[0] != kw_triangle(),
        tokens_of(lines[0])[0] != kw_inclusion(),
        tokens_of(lines[0])[0] != kw_exclusion(),
    ensures
        decode_lines(lines, st) == Err::<TsiView, ErrorView>(
            ErrorView::UnexpectedKeyword(tokens_of(lines[0])[0]),
        ),
{
}

/// Handles one `box` directive line.
fn step_box(lines: &Vec<Vec<u8>>, li: usize, toks: &Vec<Vec<u8>>, Ghost(st): Ghost<DecodeState>)
    -> (r: Result<Vec3, TsiError>)
    requires
        li < lines@.len(),
        views_of(toks@) == tokens_of(views_of(lines@)[li as int]),
        views_of(toks@).len() > 0,
        views_of(toks@)[0] == kw_box(),
    ensures
        match r {
            Ok(d) => decode_lines(views_of(lines@).skip(li as int), st) == decode_lines(
                views_of(lines@).skip(li + 1),
                DecodeState { dimensions: Some(d), ..st },
            ),
            Err(e) => decode_lines(views_of(lines@).skip(li as int), st) == Err::<
                TsiView,
                ErrorView,
            >(e@),
        },
{
    let ghost rest = views_of(lines@).skip(li as int);
    proof {
        assert(rest[0] == views_of(lines@)[li as int]);
        assert(rest.skip(1) =~= views_of(lines@).skip(li + 1));
    }
    let x = match get_fixed(toks, 1, "box x") {
        Ok(v) => v,
        Err(e) => {
            return Err(e);
        },
    };
    let y = match get_fixed(toks, 2, "box y") {
        Ok(v) => v,
        Err(e) => {
            return Err(e);
        },
    };
    let z = match get_fixed(toks, 3, "box z") {
        Ok(v) => v,
        Err(e) => {
            return Err(e);
        },
    };
    Ok(Vec3 { x, y, z })
}

/// Handles one `vertex` directive line and its record lines.
fn step_vertex(lines: &Vec<Vec<u8>>, li: usize, toks: &Vec<Vec<u8>>, Ghost(st): Ghost<DecodeState>)
    -> (r: Result<(Vec<Vertex>, usize), TsiError>)
    requires
        li < lines@.len(),
        views_of(toks@) == tokens_of(views_of(lines@)[li as int]),
        views_of(toks@).len() > 0,
        views_of(toks@)[0] == kw_vertex(),
    ensures
        match r {
            Ok(p) => decode_lines(views_of(lines@).skip(li as int), st) == decode_lines(
                views_of(lines@).skip(p.1 as int),
                DecodeState { vertices: p.0@, ..st },
            ) && li < p.1 <= lines@.len(),
            Err(e) => decode_lines(views_of(lines@).skip(li as int), st) == Err::<
                TsiView,
                ErrorView,
            >(e@),
        },
{
    let nlines = lines.len();
    let ghost rest = views_of(lines@).skip(li as int);
    proof {
        assert(rest[0] == views_of(lines@)[li as int]);
        assert(rest.skip(1) =~= views_of(lines@).skip(li + 1));
    }
    let n = match get_u32(toks, 1, "vertex count") {
        Ok(v) => v,
        Err(e) => {
            return Err(e);
        },
    };
    match read_vertex_section(lines, li + 1, n) {
        Ok(p) => {
            proof {
                assert(rest.skip(1 + n as int) =~= views_of(lines@).skip(li + 1 + n as int));
            }
            Ok(p)
        },
        Err(e) => Err(e),
    }
}

/// Handles one `triangle` directive line and its record lines.
fn step_triangle(
    lines: &Vec<Vec<u8>>,
    li: usize,
    toks: &Vec<Vec<u8>>,
    Ghost(st): Ghost<DecodeState>,
) -> (r: Result<(Vec<Triangle>, usize), TsiError>)
    requires
        li < lines@.len(),
        views_of(toks@) == tokens_of(views_of(lines@)[li as int]),
        views_of(toks@).len() > 0,
        views_of(toks@)[0] == kw_triangle(),
    ensures
        match r {
            Ok(p) => decode_lines(views_of(lines@).skip(li as int), st) == decode_lines(
                views_of(lines@).skip(p.1 as int),
                DecodeState { triangles: p.0@, ..st },
            ) && li < p.1 <= lines@.len(),
            Err(e) => decode_lines(views_of(lines@).skip(li as int), st) == Err::<
                TsiView,
                ErrorView,
            >(e@),
        },
{
    let nlines = lines.len();
    let ghost rest = views_of(lines@).skip(li as int);
    proof {
        assert(rest[0] == views_of(lines@)[li as int]);
        assert(rest.skip(1) =~= views_of(lines@).skip(li + 1));
    }
    let n = match get_u32(toks, 1, "triangle count") {
        Ok(v) => v,
        Err(e) => {
            return Err(e);
        },
    };
    match read_triangle_section(lines, li + 1, n) {
        Ok(p) => {
            proof {
                assert(rest.skip(1 + n as int) =~= views_of(lines@).skip(li + 1 + n as int));
            }
            Ok(p)
        },
        Err(e) => Err(e),
    }
}

/// Handles one `inclusion` directive line and its record lines.
fn step_inclusion(
    lines: &Vec<Vec<u8>>,
    li: usize,
    toks: &Vec<Vec<u8>>,
    Ghost(st): Ghost<DecodeState>,
) -> (r: Result<(Vec<Inclusion>, usize), TsiError>)
    requires
        li < lines@.len(),
        views_of(toks@) == tokens_of(views_of(lines@)[li as int]),
        views_of(toks@).len() > 0,
        views_of(toks@)[0] == kw_inclusion(),
    ensures
        match r {
            Ok(p) => decode_lines(views_of(lines@).skip(li as int), st) == decode_lines(
                views_of(lines@).skip(p.1 as int),
                DecodeState { inclusions: p.0@, ..st },
            ) && li < p.1 <= lines@.len(),
            Err(e) => decode_lines(views_of(lines@).skip(li as int), st) == Err::<
                TsiView,
                ErrorView,
            >(e@),
        },
{
    let nlines = lines.len();
    let ghost rest = views_of(lines@).skip(li as int);
    proof {
        assert(rest[0] == views_of(lines@)[li as int]);
        assert(rest.skip(1) =~= views_of(lines@).skip(li + 1));
    }
    let n = match get_u32(toks, 1, "inclusion count") {
        Ok(v) => v,
        Err(e) => {
            return Err(e);
        },
    };
    match read_inclusion_section(lines, li + 1, n) {
        Ok(p) => {
            proof {
                assert(rest.skip(1 + n as int) =~= views_of(lines@).skip(li + 1 + n as int));
            }
            Ok(p)
        },
        Err(e) => Err(e),
    }
}

/// Handles one `exclusion` directive line and its record lines.
fn step_exclusion(
    lines: &Vec<Vec<u8>>,
    li: usize,
    toks: &Vec<Vec<u8>>,
    Ghost(st): Ghost<DecodeState>,
) -> (r: Result<(Vec<Exclusion>, usize), TsiError>)
    requires
        li < lines@.len(),
        views_of(toks@) == tokens_of(views_of(lines@)[li as int]),
        views_of(toks@).len() > 0,
        views_of(toks@)[0] == kw_exclusion(),
    ensures
        match r {
            Ok(p) => decode_lines(views_of(lines@).skip(li as int), st) == decode_lines(
                views_of(lines@).skip(p.1 as int),
                DecodeState { exclusions: p.0@, ..st },
            ) && li < p.1 <= lines@.len(),
            Err(e) => decode_lines(views_of(lines@).skip(li as int), st) == Err::<
                TsiView,
                ErrorView,
            >(e@),
        },
{
    let nlines = lines.len();
    let ghost rest = views_of(lines@).skip(li as int);
    proof {
        assert(rest[0] == views_of(lines@)[li as int]);
        assert(rest.skip(1) =~= views_of(lines@).skip(li + 1));
    }
    let n = match get_u32(toks, 1, "exclusion count") {
        Ok(v) => v,
        Err(e) => {
            return Err(e);
        },
    };
    match read_exclusion_section(lines, li + 1, n) {
        Ok(p) => {
            proof {
                assert(rest.skip(1 + n as int) =~= views_of(lines@).skip(li + 1 + n as int));
            }
            Ok(p)
        },
        Err(e) => Err(e),
    }
}

/// The decoder's running state: the executable counterpart of
/// [`DecodeState`].
struct Decoder {
    version: Option<Vec<u8>>,
    dimensions: Option<Vec3>,
    vertices: Vec<Vertex>,
    triangles: Vec<Triangle>,
    inclusions: Vec<Inclusion>,
    exclusions: Vec<Exclusion>,
}

impl View for Decoder {
    type V = DecodeState;

    closed spec fn view(&self) -> DecodeState {
        DecodeState {
            version: match self.version {
                Some(ref v) => Some(v@),
                None => None,
            },
            dimensions: self.dimensions,
            vertices: self.vertices@,
            triangles: self.triangles@,
            inclusions: self.inclusions@,
            exclusions: self.exclusions@,
        }
    }
}

/// Handles one directive line, with its record lines if it opens a section,
/// and says where the next directive starts.
#[verifier::rlimit(100)]
fn step(lines: &Vec<Vec<u8>>, li: usize, dec: &mut Decoder) -> (r: Result<usize, TsiError>)
    requires
        li < lines@.len(),
    ensures
        match r {
            Ok(li2) => decode_lines(views_of(lines@).skip(li as int), old(dec)@) == decode_lines(
                views_of(lines@).skip(li2 as int),
                final(dec)@,
            ) && li < li2 <= lines@.len(),
            Err(e) => decode_lines(views_of(lines@).skip(li as int), old(dec)@) == Err::<
                TsiView,
                ErrorView,
            >(e@),
        },
{
    let nlines = lines.len();
    let ghost all = views_of(lines@);
    let ghost rest = all.skip(li as int);
    let ghost st = dec@;
    proof {
        assert(all[li as int] == lines@[li as int]@);
        assert(rest[0] == all[li as int]);
        assert(rest.skip(1) =~= all.skip(li + 1));
    }
    let toks = tokenize(lines[li].as_slice());
    let ghost stoks = tokens_of(rest[0]);
    if toks.len() == 0 {
        proof {
            lemma_step_no_keyword(rest, st);
        }
        return Err(missing_item_value("section keyword"));
    }
    proof {
        assert(stoks[0] == toks@[0]@);
    }
    let kw_ver = kw_version_vec();
    if bytes_eq(toks[0].as_slice(), kw_ver.as_slice()) {
        if toks.len() < 2 {
            proof {
                lemma_step_version_missing(rest, st);
            }
            return Err(missing_item_value("version tag"));
        }
        proof {
            assert(stoks[1] == toks@[1]@);
            lemma_step_version(rest, st);
        }
        let vtok = copy_range(toks[1].as_slice(), 0, toks[1].len());
        proof {
            assert(vtok@ =~= toks@[1]@);
        }
        dec.version = Some(vtok);
        return Ok(li + 1);
    }
    let kw_bx = kw_box_vec();
    if bytes_eq(toks[0].as_slice(), kw_bx.as_slice()) {
        let d = step_box(lines, li, &toks, Ghost(st))?;
        dec.dimensions = Some(d);
        return Ok(li + 1);
    }
    let kw_vx = kw_vertex_vec();
    if bytes_eq(toks[0].as_slice(), kw_vx.as_slice()) {
        let p = step_vertex(lines, li, &toks, Ghost(st))?;
        dec.vertices = p.0;
        return Ok(p.1);
    }
    let kw_tr = kw_triangle_vec();
    if bytes_eq(toks[0].as_slice(), kw_tr.as_slice()) {
        let p = step_triangle(lines, li, &toks, Ghost(st))?;
        dec.triangles = p.0;
        return Ok(p.1);
    }
    let kw_in = kw_inclusion_vec();
    if bytes_eq(toks[0].as_slice(), kw_in.as_slice()) {
        let p = step_inclusion(lines, li, &toks, Ghost(st))?;
        dec.inclusions = p.0;
        return Ok(p.1);
    }
    let kw_ex = kw_exclusion_vec();
    if bytes_eq(toks[0].as_slice(), kw_ex.as_slice()) {
        let p = step_exclusion(lines, li, &toks, Ghost(st))?;
        dec.exclusions = p.0;
        return Ok(p.1);
    }
    let ktok = copy_range(toks[0].as_slice(), 0, toks[0].len());
    proof {
        assert(ktok@ =~= toks@[0]@);
        lemma_step_unexpected(rest, st);
    }
    Err(TsiError::UnexpectedKeyword(ktok))
}

/// The end-of-stream checks, as [`finish`] states.
fn finish_exec(dec: Decoder) -> (r: Result<Tsi, TsiError>)
    ensures
        match r {
            Ok(t) => finish(dec@) == Ok::<TsiView, ErrorView>(t@),
            Err(e) => finish(dec@) == Err::<TsiView, ErrorView>(e@),
        },
{
    let Decoder { version, dimensions, vertices, triangles, inclusions, exclusions } = dec;
    let ver = match version {
        Some(v) => v,
        None => {
            return Err(TsiError::Missing(MissingItem::Definition("version")));
        },
    };
    let expected = supported_version_vec();
    if !bytes_eq(ver.as_slice(), expected.as_slice()) {
        return Err(TsiError::InvalidVersion(ver));
    }
    let dims = match dimensions {
        Some(d) => d,
        None => {
            return Err(TsiError::Missing(MissingItem::Definition("box")));
        },
    };
    Ok(Tsi { dimensions: dims, vertices, triangles, inclusions, exclusions })
}

impl Tsi {
    /// Decodes a complete mesh from the bytes of a tsi document, returning
    /// exactly what [`decode_spec`] states for this input: the mesh when
    /// the document is well formed, and the first error otherwise.
    #[verifier::rlimit(100)]
    pub fn parse(input: &[u8]) -> (r: Result<Tsi, TsiError>)
        ensures
            match r {
                Ok(t) => decode_spec(input@) == Ok::<TsiView, ErrorView>(t@),
                Err(e) => decode_spec(input@) == Err::<TsiView, ErrorView>(e@),
            },
    {
        let lines = split_lines(input);
        let ghost all = lines_of(input@);
        let mut dec = Decoder {
            version: None,
            dimensions: None,
            vertices: Vec::new(),
            triangles: Vec::new(),
            inclusions: Vec::new(),
            exclusions: Vec::new(),
        };
        let mut li: usize = 0;
        proof {
            assert(all.skip(0) =~= all);
            assert(dec@.vertices =~= Seq::<Vertex>::empty());
            assert(dec@.triangles =~= Seq::<Triangle>::empty());
            assert(dec@.inclusions =~= Seq::<Inclusion>::empty());
            assert(dec@.exclusions =~= Seq::<Exclusion>::empty());
            assert(dec@ == init_state());
        }
        while li < lines.len()
            invariant
                li <= lines@.len(),
                views_of(lines@) == all,
                all == lines_of(input@),
                decode_lines(all, init_state()) == decode_lines(all.skip(li as int), dec@),
            decreases lines@.len() - li,
        {
            match step(&lines, li, &mut dec) {
                Ok(li2) => {
                    li = li2;
                },
                Err(e) => {
                    return Err(e);
                },
            }
        }
        let ghost fdec = dec@;
        proof {
            assert(all.skip(li as int).len() == 0);
            assert(decode_lines(all.skip(li as int), dec@) == finish(fdec));
            assert(decode_spec(input@) == decode_lines(all, init_state()));
            assert(decode_spec(input@) == finish(fdec));
        }
        let out = finish_exec(dec);
        proof {
            match out {
                Ok(ref t) => {
                    assert(decode_spec(input@) == Ok::<TsiView, ErrorView>(t@));
                },
                Err(ref e) => {
                    assert(decode_spec(input@) == Err::<TsiView, ErrorView>(e@));
                },
            }
        }
        out
    }
}

/// Decoding a tsi document.
pub trait ReadTsi where Self: Sized {
    /// Decodes a complete value from the bytes of a document.
    fn parse(input: &[u8]) -> Result<Self, TsiError>;
}

impl ReadTsi for Tsi {
    fn parse(input: &[u8]) -> Result<Self, TsiError> {
        Tsi::parse(input)
    }
}

} // verus!
