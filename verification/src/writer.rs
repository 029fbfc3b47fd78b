//! The encoder: from a mesh value to its canonical text.
//!
//! The output mirrors the decoder's grammar exactly: a version line, a box
//! line, then each section as a count line followed by its records. Record
//! indices are regenerated from position; every fixed-point field is written
//! with exactly three fractional digits. [`encode_spec`] states the whole
//! output, byte for byte.

use vstd::prelude::*;

use crate::{Exclusion, Inclusion, Triangle, Tsi, TsiView, Vec3, Vertex};
use crate::num::{dec_digits, fmt_fixed, fmt_int, push_dec_u64, push_fixed, push_int_i64};
use crate::reader::{
    kw_box, kw_box_vec, kw_exclusion, kw_exclusion_vec, kw_inclusion, kw_inclusion_vec,
    kw_triangle, kw_triangle_vec, kw_version, kw_version_vec, kw_vertex, kw_vertex_vec,
    supported_version, supported_version_vec,
};

verus! {

pub open spec fn sp() -> Seq<u8> {
    seq![32u8]
}

pub open spec fn nl() -> Seq<u8> {
    seq![10u8]
}

/// The fixed first line: `version 1.1`.
pub open spec fn enc_version_line() -> Seq<u8> {
    kw_version() + sp() + supported_version() + nl()
}

/// A `box` line: the three dimensions.
pub open spec fn enc_box_line(d: Vec3) -> Seq<u8> {
    kw_box() + sp() + fmt_fixed(d.x) + sp() + fmt_fixed(d.y) + sp() + fmt_fixed(d.z) + nl()
}

/// A section's count line: its keyword and the number of records.
pub open spec fn enc_count_line(kw: Seq<u8>, n: nat) -> Seq<u8> {
    kw + sp() + dec_digits(n) + nl()
}

/// One vertex record line: index, position, domain.
pub open spec fn enc_vertex_line(i: nat, v: Vertex) -> Seq<u8> {
    dec_digits(i) + sp() + fmt_fixed(v.position.x) + sp() + fmt_fixed(v.position.y) + sp()
        + fmt_fixed(v.position.z) + sp() + fmt_int(v.domain as int) + nl()
}

/// One triangle record line: index, three vertex indices.
pub open spec fn enc_triangle_line(i: nat, t: Triangle) -> Seq<u8> {
    dec_digits(i) + sp() + dec_digits(t.v0 as nat) + sp() + dec_digits(t.v1 as nat) + sp()
        + dec_digits(t.v2 as nat) + nl()
}

/// One inclusion record line: index, type, vertex index, vector.
pub open spec fn enc_inclusion_line(i: nat, inc: Inclusion) -> Seq<u8> {
    dec_digits(i) + sp() + fmt_int(inc.ty as int) + sp() + dec_digits(inc.vertex_index as nat)
        + sp() + fmt_fixed(inc.vector.x) + sp() + fmt_fixed(inc.vector.y) + nl()
}

/// One exclusion record line: index, vertex index, radius.
pub open spec fn enc_exclusion_line(i: nat, e: Exclusion) -> Seq<u8> {
    dec_digits(i) + sp() + dec_digits(e.vertex_index as nat) + sp() + fmt_fixed(e.radius) + nl()
}

/// The first `n` vertex records, each line carrying its position as index.
pub open spec fn enc_vertices(vs: Seq<Vertex>, n: int) -> Seq<u8>
    decreases n,
{
    if n <= 0 {
        Seq::empty()
    } else {
        enc_vertices(vs, n - 1) + enc_vertex_line((n - 1) as nat, vs[n - 1])
    }
}

/// The first `n` triangle records.
pub open spec fn enc_triangles(ts: Seq<Triangle>, n: int) -> Seq<u8>
    decreases n,
{
    if n <= 0 {
        Seq::empty()
    } else {
        enc_triangles(ts, n - 1) + enc_triangle_line((n - 1) as nat, ts[n - 1])
    }
}

/// The first `n` inclusion records.
pub open spec fn enc_inclusions(is: Seq<Inclusion>, n: int) -> Seq<u8>
    decreases n,
{
    if n <= 0 {
        Seq::empty()
    } else {
        enc_inclusions(is, n - 1) + enc_inclusion_line((n - 1) as nat, is[n - 1])
    }
}

/// The first `n` exclusion records.
pub open spec fn enc_exclusions(es: Seq<Exclusion>, n: int) -> Seq<u8>
    decreases n,
{
    if n <= 0 {
        Seq::empty()
    } else {
        enc_exclusions(es, n - 1) + enc_exclusion_line((n - 1) as nat, es[n - 1])
    }
}

/// The canonical text of a whole mesh, byte for byte.
pub open spec fn encode_spec(t: TsiView) -> Seq<u8> {
    enc_version_line() + enc_box_line(t.dimensions) + enc_count_line(
        kw_vertex(),
        t.vertices.len(),
    ) + enc_vertices(t.vertices, t.vertices.len() as int) + enc_count_line(
        kw_triangle(),
        t.triangles.len(),
    ) + enc_triangles(t.triangles, t.triangles.len() as int) + enc_count_line(
        kw_inclusion(),
        t.inclusions.len(),
    ) + enc_inclusions(t.inclusions, t.inclusions.len() as int) + enc_count_line(
        kw_exclusion(),
        t.exclusions.len(),
    ) + enc_exclusions(t.exclusions, t.exclusions.len() as int)
}

/// Appends every byte of `s`.
fn push_all(out: &mut Vec<u8>, s: &Vec<u8>)
    ensures
        final(out)@ == old(out)@ + s@,
{
    let mut i: usize = 0;
    while i < s.len()
        invariant
            i <= s@.len(),
            out@ =~= old(out)@ + s@.take(i as int),
        decreases s@.len() - i,
    {
        out.push(s[i]);
        assert(out@ =~= old(out)@ + s@.take(i + 1));
        i += 1;
    }
    assert(out@ =~= old(out)@ + s@);
}

/// Appends one vertex record line, as [`enc_vertex_line`] states.
fn write_vertex_line(out: &mut Vec<u8>, i: u64, v: &Vertex)
    ensures
        final(out)@ == old(out)@ + enc_vertex_line(i as nat, *v),
{
    push_dec_u64(out, i);
    out.push(32);
    push_fixed(out, v.position.x);
    out.push(32);
    push_fixed(out, v.position.y);
    out.push(32);
    push_fixed(out, v.position.z);
    out.push(32);
    push_int_i64(out, v.domain as i64);
    out.push(10);
    assert(out@ =~= old(out)@ + enc_vertex_line(i as nat, *v));
}

/// Appends one triangle record line, as [`enc_triangle_line`] states.
fn write_triangle_line(out: &mut Vec<u8>, i: u64, t: &Triangle)
    ensures
        final(out)@ == old(out)@ + enc_triangle_line(i as nat, *t),
{
    push_dec_u64(out, i);
    out.push(32);
    push_dec_u64(out, t.v0 as u64);
    out.push(32);
    push_dec_u64(out, t.v1 as u64);
    out.push(32);
    push_dec_u64(out, t.v2 as u64);
    out.push(10);
    assert(out@ =~= old(out)@ + enc_triangle_line(i as nat, *t));
}

/// Appends one inclusion record line, as [`enc_inclusion_line`] states.
fn write_inclusion_line(out: &mut Vec<u8>, i: u64, inc: &Inclusion)
    ensures
        final(out)@ == old(out)@ + enc_inclusion_line(i as nat, *inc),
{
    push_dec_u64(out, i);
    out.push(32);
    push_int_i64(out, inc.ty as i64);
    out.push(32);
    push_dec_u64(out, inc.vertex_index as u64);
    out.push(32);
    push_fixed(out, inc.vector.x);
    out.push(32);
    push_fixed(out, inc.vector.y);
    out.push(10);
    assert(out@ =~= old(out)@ + enc_inclusion_line(i as nat, *inc));
}

/// Appends one exclusion record line, as [`enc_exclusion_line`] states.
fn write_exclusion_line(out: &mut Vec<u8>, i: u64, e: &Exclusion)
    ensures
        final(out)@ == old(out)@ + enc_exclusion_line(i as nat, *e),
{
    push_dec_u64(out, i);
    out.push(32);
    push_dec_u64(out, e.vertex_index as u64);
    out.push(32);
    push_fixed(out, e.radius);
    out.push(10);
    assert(out@ =~= old(out)@ + enc_exclusion_line(i as nat, *e));
}

/// Appends a section's count line, as [`enc_count_line`] states.
fn write_count_line(out: &mut Vec<u8>, kw: &Vec<u8>, n: u64)
    ensures
        final(out)@ == old(out)@ + enc_count_line(kw@, n as nat),
{
    push_all(out, kw);
    out.push(32);
    push_dec_u64(out, n);
    out.push(10);
    assert(out@ =~= old(out)@ + enc_count_line(kw@, n as nat));
}

impl Tsi {
    /// Encodes this mesh as canonical tsi text, returning exactly the bytes
    /// [`encode_spec`] states: re-decoding them recovers this mesh.
    #[verifier::rlimit(30)]
    pub fn encode(&self) -> (out: Vec<u8>)
        ensures
            out@ == encode_spec(self@),
    {
        let mut out: Vec<u8> = Vec::new();
        let kwv = kw_version_vec();
        push_all(&mut out, &kwv);
        out.push(32);
        let ver = supported_version_vec();
        push_all(&mut out, &ver);
        out.push(10);
        proof {
            assert(out@ =~= enc_version_line());
        }
        let kwb = kw_box_vec();
        push_all(&mut out, &kwb);
        out.push(32);
        push_fixed(&mut out, self.dimensions.x);
        out.push(32);
        push_fixed(&mut out, self.dimensions.y);
        out.push(32);
        push_fixed(&mut out, self.dimensions.z);
        out.push(10);
        let ghost h2 = enc_version_line() + enc_box_line(self.dimensions);
        proof {
            assert(out@ =~= h2);
        }
        // Vertices.
        let kwvx = kw_vertex_vec();
        write_count_line(&mut out, &kwvx, self.vertices.len() as u64);
        let ghost base_v = h2 + enc_count_line(kw_vertex(), self@.vertices.len());
        let mut i: usize = 0;
        proof {
            assert(out@ =~= base_v + enc_vertices(self@.vertices, 0));
        }
        while i < self.vertices.len()
            invariant
                i <= self@.vertices.len(),
                out@ == base_v + enc_vertices(self@.vertices, i as int),
            decreases self@.vertices.len() - i,
        {
            write_vertex_line(&mut out, i as u64, &self.vertices[i]);
            proof {
                assert(out@ =~= base_v + enc_vertices(self@.vertices, i + 1));
            }
            i += 1;
        }
        // Triangles.
        let kwtr = kw_triangle_vec();
        write_count_line(&mut out, &kwtr, self.triangles.len() as u64);
        let ghost base_t = base_v + enc_vertices(self@.vertices, self@.vertices.len() as int)
            + enc_count_line(kw_triangle(), self@.triangles.len());
        let mut i: usize = 0;
        proof {
            assert(out@ =~= base_t + enc_triangles(self@.triangles, 0));
        }
        while i < self.triangles.len()
            invariant
                i <= self@.triangles.len(),
                out@ == base_t + enc_triangles(self@.triangles, i as int),
            decreases self@.triangles.len() - i,
        {
            write_triangle_line(&mut out, i as u64, &self.triangles[i]);
            proof {
                assert(out@ =~= base_t + enc_triangles(self@.triangles, i + 1));
            }
            i += 1;
        }
        // Inclusions.
        let kwin = kw_inclusion_vec();
        write_count_line(&mut out, &kwin, self.inclusions.len() as u64);
        let ghost base_i = base_t + enc_triangles(self@.triangles, self@.triangles.len() as int)
            + enc_count_line(kw_inclusion(), self@.inclusions.len());
        let mut i: usize = 0;
        proof {
            assert(out@ =~= base_i + enc_inclusions(self@.inclusions, 0));
        }
        while i < self.inclusions.len()
            invariant
                i <= self@.inclusions.len(),
                out@ == base_i + enc_inclusions(self@.inclusions, i as int),
            decreases self@.inclusions.len() - i,
        {
            write_inclusion_line(&mut out, i as u64, &self.inclusions[i]);
            proof {
                assert(out@ =~= base_i + enc_inclusions(self@.inclusions, i + 1));
            }
            i += 1;
        }
        // Exclusions.
        let kwex = kw_exclusion_vec();
        write_count_line(&mut out, &kwex, self.exclusions.len() as u64);
        let ghost base_e = base_i + enc_inclusions(self@.inclusions, self@.inclusions.len() as int)
            + enc_count_line(kw_exclusion(), self@.exclusions.len());
        let mut i: usize = 0;
        proof {
            assert(out@ =~= base_e + enc_exclusions(self@.exclusions, 0));
        }
        while i < self.exclusions.len()
            invariant
                i <= self@.exclusions.len(),
                out@ == base_e + enc_exclusions(self@.exclusions, i as int),
            decreases self@.exclusions.len() - i,
        {
            write_exclusion_line(&mut out, i as u64, &self.exclusions[i]);
            proof {
                assert(out@ =~= base_e + enc_exclusions(self@.exclusions, i + 1));
            }
            i += 1;
        }
        proof {
            assert(out@ =~= encode_spec(self@));
        }
        out
    }
}

/// Encoding a value as tsi text.
pub trait WriteTsi {
    /// Encodes the value as the bytes of a document.
    fn write(&self) -> Vec<u8>;
}

impl WriteTsi for Tsi {
    fn write(&self) -> Vec<u8> {
        self.encode()
    }
}

} // verus!
