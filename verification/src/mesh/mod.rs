//! Indexed triangle meshes, in millimetres.

pub mod bvh;
pub mod io;
pub mod intersect;
pub mod common;
pub mod flat;
pub mod measure_laws;
pub mod meeting;
pub mod revolved;
pub mod shapes;
pub mod sphere;
pub mod six;
pub mod unique;
pub mod units;
pub mod validate;
pub mod weld;
pub mod weld_laws;
pub mod words;

use crate::arithmetic::{quotient, sum};
use crate::double::Double;
use crate::math::{
    box_around, cross_product, dot_product, normalized_vector, vector_difference, vector_length, vector_quotient,
    vector_sum, Aabb3, Vec3,
};
use crate::predicates::{orient3d_coords, orient3d_range, CoordRange};
use crate::text::{decimal_text, push_number};
use units::Unit;
use vstd::prelude::*;

verus! {

/// Where a mesh came from and what was done to it on the way in.
#[derive(Debug, PartialEq, Eq)]
pub struct MeshMeta {
    /// Format the mesh was read from; empty for one built in memory.
    pub source_format: String,
    /// Unit the source was interpreted as.
    pub source_unit: Unit,
    /// Faces of more than three vertices that were fan-triangulated.
    pub polygons_triangulated: u32,
    /// Of those, how many were not convex.
    pub non_convex_polygons: u32,
    /// Records the loader ignored.
    pub ignored_records: u32,
}

impl Clone for MeshMeta {
    fn clone(&self) -> (r: Self)
        ensures
            r == *self,
    {
        MeshMeta {
            source_format: self.source_format.clone(),
            source_unit: self.source_unit,
            polygons_triangulated: self.polygons_triangulated,
            non_convex_polygons: self.non_convex_polygons,
            ignored_records: self.ignored_records,
        }
    }
}

/// Metadata of a mesh that was built in memory, in millimetres.
pub open spec fn built_in_memory(m: MeshMeta) -> bool {
    &&& m.source_format@ == Seq::<char>::empty()
    &&& m.source_unit == Unit::Millimetre
    &&& m.polygons_triangulated == 0
    &&& m.non_convex_polygons == 0
    &&& m.ignored_records == 0
}

impl MeshMeta {
    /// Metadata for a mesh built in memory, already in millimetres.
    pub fn synthetic() -> (m: MeshMeta)
        ensures
            built_in_memory(m),
    {
        MeshMeta {
            source_format: String::new(),
            source_unit: Unit::Millimetre,
            polygons_triangulated: 0,
            non_convex_polygons: 0,
            ignored_records: 0,
        }
    }

    /// The factor that source coordinates were multiplied by.
    pub fn scale_applied(&self) -> (d: Double)
        ensures
            d == self.source_unit.factor(),
    {
        self.source_unit.millimetres_per()
    }
}

/// Why a mesh could not be constructed.
#[derive(Debug, PartialEq, Eq)]
pub enum MeshError {
    /// A coordinate was a NaN or infinite.
    NonFiniteCoordinate {
        /// Index of the vertex.
        vertex: u32,
        /// Which component: 0 = x, 1 = y, 2 = z.
        axis: usize,
        /// The value.
        value: Double,
        /// Where in its source the vertex stands, if a reader of the source said so.
        location: Option<String>,
    },
    /// A coordinate lies outside the range that the ray caster is specified for.
    CoordinateOutOfRange {
        /// Index of the vertex.
        vertex: u32,
        /// Which component: 0 = x, 1 = y, 2 = z.
        axis: usize,
        /// The value.
        value: Double,
        /// Smallest admissible nonzero magnitude.
        min: Double,
        /// Largest admissible magnitude.
        max: Double,
    },
    /// A triangle referenced a vertex that does not exist.
    IndexOutOfRange {
        /// Index of the triangle.
        triangle: u32,
        /// The vertex index.
        index: u32,
        /// How many vertices the mesh has.
        vertex_count: u32,
    },
    /// More vertices than an index can address.
    TooManyVertices {
        /// How many there were.
        count: usize,
    },
    /// More triangles than an index can address.
    TooManyTriangles {
        /// How many there were.
        count: usize,
    },
}

/// The name of an axis.
pub open spec fn axis_label(axis: int) -> Seq<char> {
    if axis == 0 {
        "x"@
    } else if axis == 1 {
        "y"@
    } else if axis == 2 {
        "z"@
    } else {
        "?"@
    }
}

/// How a number that is not finite is written.
pub open spec fn spelled_special(d: Double) -> Seq<char> {
    if d.nan() {
        "NaN"@
    } else if d.signed() {
        "-inf"@
    } else {
        "inf"@
    }
}

fn spell_special(d: Double) -> (s: &'static str)
    ensures
        s@ == spelled_special(d),
{
    if d.is_nan() {
        "NaN"
    } else if d.is_sign_negative() {
        "-inf"
    } else {
        "inf"
    }
}

pub(crate) fn axis_name(axis: usize) -> (s: &'static str)
    ensures
        s@ == axis_label(axis as int),
{
    match axis {
        0 => "x",
        1 => "y",
        2 => "z",
        _ => "?",
    }
}

/// What is said of where a vertex stands in its source.
pub open spec fn located(location: Option<String>) -> Seq<char> {
    match location {
        Some(place) => " at "@ + place@,
        None => Seq::empty(),
    }
}

impl MeshError {
    /// The vertex that the error is about, if it is about one.
    pub open spec fn vertex_at(self) -> Option<u32> {
        match self {
            MeshError::NonFiniteCoordinate { vertex, .. } => Some(vertex),
            MeshError::CoordinateOutOfRange { vertex, .. } => Some(vertex),
            _ => None,
        }
    }

    /// The vertex that the error is about, if it is about one.
    pub fn vertex(&self) -> (v: Option<u32>)
        ensures
            v == self.vertex_at(),
    {
        match self {
            MeshError::NonFiniteCoordinate { vertex, .. } => Some(*vertex),
            MeshError::CoordinateOutOfRange { vertex, .. } => Some(*vertex),
            _ => None,
        }
    }

    /// What a reader is told of the error, without the figures of its
    /// coordinates.
    pub open spec fn text(self) -> Seq<char> {
        match self {
            MeshError::NonFiniteCoordinate { vertex, axis, value, location } => "vertex "@ + decimal_text(vertex as nat)
                + " has a non-finite "@ + axis_label(axis as int) + " coordinate ("@ + spelled_special(value) + ")"@
                + located(location) + "; a NaN or infinity here would reach the exact predicates, which reject it by panicking, so it is stopped at the boundary"@,
            MeshError::CoordinateOutOfRange { vertex, axis, .. } => "vertex "@ + decimal_text(vertex as nat) + " has "@
                + axis_label(axis as int)
                + " outside the range in which orient3d is exact; the ray caster would return a meaningless sign for it. This usually means a corrupted transform upstream rather than a real part."@,
            MeshError::IndexOutOfRange { triangle, index, vertex_count } => "triangle "@ + decimal_text(triangle as nat)
                + " references vertex "@ + decimal_text(index as nat) + ", but the mesh has only "@ + decimal_text(
                vertex_count as nat,
            ) + " vertices"@,
            MeshError::TooManyVertices { count } => decimal_text(count as nat) + " vertices exceeds the u32 index space"@,
            MeshError::TooManyTriangles { count } => decimal_text(count as nat)
                + " triangles exceeds the u32 index space"@,
        }
    }

    /// What a reader is told of the error, given how the value and the bounds of
    /// the range are written.
    pub open spec fn text_with(self, value: Seq<char>, min: Seq<char>, max: Seq<char>) -> Seq<char> {
        match self {
            MeshError::CoordinateOutOfRange { vertex, axis, .. } => "vertex "@ + decimal_text(vertex as nat) + " has "@
                + axis_label(axis as int) + " = "@ + value + ", outside the range ["@ + min + ", "@ + max
                + "] in which orient3d is exact; the ray caster would return a meaningless sign for it. This usually means a corrupted transform upstream rather than a real part."@,
            _ => self.text(),
        }
    }

    /// What a reader is told of the error, given how the value and the bounds of
    /// the range are written.
    pub fn message_with(&self, value: &str, min: &str, max: &str) -> (s: String)
        ensures
            s@ == self.text_with(value@, min@, max@),
    {
        match self {
            MeshError::CoordinateOutOfRange { vertex, axis, .. } => {
                let mut s: String = String::new();
                s.append("vertex ");
                push_number(&mut s, *vertex as u64);
                s.append(" has ");
                s.append(axis_name(*axis));
                s.append(" = ");
                s.append(value);
                s.append(", outside the range [");
                s.append(min);
                s.append(", ");
                s.append(max);
                s.append(
                    "] in which orient3d is exact; the ray caster would return a meaningless sign for it. This usually means a corrupted transform upstream rather than a real part.",
                );
                assert(s@ =~= self.text_with(value@, min@, max@));
                s
            },
            _ => self.message(),
        }
    }

    /// What a reader is told of the error, without the figures of its
    /// coordinates.
    pub fn message(&self) -> (s: String)
        ensures
            s@ == self.text(),
    {
        let mut s: String = String::new();
        match self {
            MeshError::NonFiniteCoordinate { vertex, axis, value, location } => {
                s.append("vertex ");
                push_number(&mut s, *vertex as u64);
                s.append(" has a non-finite ");
                s.append(axis_name(*axis));
                s.append(" coordinate (");
                s.append(spell_special(*value));
                s.append(")");
                if let Some(place) = location {
                    s.append(" at ");
                    s.append(place.as_str());
                }
                s.append(
                    "; a NaN or infinity here would reach the exact predicates, which reject it by panicking, so it is stopped at the boundary",
                );
            },
            MeshError::CoordinateOutOfRange { vertex, axis, .. } => {
                s.append("vertex ");
                push_number(&mut s, *vertex as u64);
                s.append(" has ");
                s.append(axis_name(*axis));
                s.append(
                    " outside the range in which orient3d is exact; the ray caster would return a meaningless sign for it. This usually means a corrupted transform upstream rather than a real part.",
                );
            },
            MeshError::IndexOutOfRange { triangle, index, vertex_count } => {
                s.append("triangle ");
                push_number(&mut s, *triangle as u64);
                s.append(" references vertex ");
                push_number(&mut s, *index as u64);
                s.append(", but the mesh has only ");
                push_number(&mut s, *vertex_count as u64);
                s.append(" vertices");
            },
            MeshError::TooManyVertices { count } => {
                push_number(&mut s, *count as u64);
                s.append(" vertices exceeds the u32 index space");
            },
            MeshError::TooManyTriangles { count } => {
                push_number(&mut s, *count as u64);
                s.append(" triangles exceeds the u32 index space");
            },
        }
        proof {
            assert(s@ =~= self.text());
        }
        s
    }
}

/// What is wrong with one coordinate, if anything is.
pub open spec fn coordinate_fault(v: Vec3, vertex: u32, axis: int) -> Option<MeshError> {
    let value = v.at(axis);
    let range = orient3d_coords();
    if !value.finite() {
        Some(MeshError::NonFiniteCoordinate { vertex, axis: axis as usize, value, location: None })
    } else if !range.admits(value) {
        Some(MeshError::CoordinateOutOfRange { vertex, axis: axis as usize, value, min: range.min, max: range.max })
    } else {
        None
    }
}

/// The first thing wrong with a vertex, if anything is.
pub open spec fn vertex_fault(v: Vec3, vertex: u32) -> Option<MeshError> {
    if coordinate_fault(v, vertex, 0) is Some {
        coordinate_fault(v, vertex, 0)
    } else if coordinate_fault(v, vertex, 1) is Some {
        coordinate_fault(v, vertex, 1)
    } else {
        coordinate_fault(v, vertex, 2)
    }
}

/// The first thing wrong with a triangle, if anything is.
pub open spec fn triangle_fault(t: [u32; 3], triangle: u32, vertex_count: u32) -> Option<MeshError> {
    if t[0] >= vertex_count {
        Some(MeshError::IndexOutOfRange { triangle, index: t[0], vertex_count })
    } else if t[1] >= vertex_count {
        Some(MeshError::IndexOutOfRange { triangle, index: t[1], vertex_count })
    } else if t[2] >= vertex_count {
        Some(MeshError::IndexOutOfRange { triangle, index: t[2], vertex_count })
    } else {
        None
    }
}

/// The first thing wrong with a mesh: its size, then its vertices from `i` on,
/// then its triangles from `j` on.
pub open spec fn mesh_fault_from(vertices: Seq<Vec3>, triangles: Seq<[u32; 3]>, i: int, j: int) -> Option<MeshError>
    decreases vertices.len() - i, triangles.len() - j,
{
    if i < vertices.len() {
        match vertex_fault(vertices[i], i as u32) {
            Some(e) => Some(e),
            None => mesh_fault_from(vertices, triangles, i + 1, j),
        }
    } else if j < triangles.len() {
        match triangle_fault(triangles[j], j as u32, vertices.len() as u32) {
            Some(e) => Some(e),
            None => mesh_fault_from(vertices, triangles, i, j + 1),
        }
    } else {
        None
    }
}

/// The first thing wrong with a mesh, if anything is.
pub open spec fn mesh_fault(vertices: Seq<Vec3>, triangles: Seq<[u32; 3]>) -> Option<MeshError> {
    if vertices.len() > u32::MAX {
        Some(MeshError::TooManyVertices { count: vertices.len() as usize })
    } else if triangles.len() > u32::MAX {
        Some(MeshError::TooManyTriangles { count: triangles.len() as usize })
    } else {
        mesh_fault_from(vertices, triangles, 0, 0)
    }
}

/// A vertex with finite coordinates in range.
pub open spec fn sound_vertex(v: Vec3) -> bool {
    &&& v.finite()
    &&& orient3d_coords().admits(v.x)
    &&& orient3d_coords().admits(v.y)
    &&& orient3d_coords().admits(v.z)
}

/// What every mesh satisfies: counts that an index can address, sound vertices,
/// and triangles of existing vertices.
pub open spec fn sound(vertices: Seq<Vec3>, triangles: Seq<[u32; 3]>) -> bool {
    &&& vertices.len() <= u32::MAX
    &&& triangles.len() <= u32::MAX
    &&& forall|i: int| 0 <= i < vertices.len() ==> sound_vertex(#[trigger] vertices[i])
    &&& forall|i: int|
        0 <= i < triangles.len() ==> (#[trigger] triangles[i])[0] < vertices.len() && triangles[i][1] < vertices.len()
            && triangles[i][2] < vertices.len()
}

proof fn lemma_no_fault(vertices: Seq<Vec3>, triangles: Seq<[u32; 3]>, i: int, j: int)
    requires
        0 <= i <= vertices.len() <= u32::MAX,
        0 <= j <= triangles.len() <= u32::MAX,
    ensures
        mesh_fault_from(vertices, triangles, i, j) is None <==> {
            &&& forall|k: int| i <= k < vertices.len() ==> sound_vertex(#[trigger] vertices[k])
            &&& forall|k: int|
                j <= k < triangles.len() ==> (#[trigger] triangles[k])[0] < vertices.len() && triangles[k][1]
                    < vertices.len() && triangles[k][2] < vertices.len()
        },
    decreases vertices.len() - i, triangles.len() - j,
{
    if i < vertices.len() {
        lemma_no_fault(vertices, triangles, i + 1, j);
        assert(sound_vertex(vertices[i]) <==> vertex_fault(vertices[i], i as u32) is None);
    } else if j < triangles.len() {
        lemma_no_fault(vertices, triangles, i, j + 1);
        let t = triangles[j];
    }
}

/// A mesh has no fault exactly when it is sound.
pub proof fn law_faultless_is_sound(vertices: Seq<Vec3>, triangles: Seq<[u32; 3]>)
    ensures
        mesh_fault(vertices, triangles) is None <==> sound(vertices, triangles),
{
    if vertices.len() <= u32::MAX && triangles.len() <= u32::MAX {
        lemma_no_fault(vertices, triangles, 0, 0);
    }
}

/// The corners of a triangle.
pub open spec fn corners_of(vertices: Seq<Vec3>, t: [u32; 3]) -> (Vec3, Vec3, Vec3) {
    (vertices[t[0] as int], vertices[t[1] as int], vertices[t[2] as int])
}

/// An indexed triangle mesh in millimetres.
#[derive(Debug, PartialEq, Eq)]
pub struct TriMesh {
    vertices: Vec<Vec3>,
    triangles: Vec<[u32; 3]>,
    meta: MeshMeta,
}

/// Six times the signed volume under the first `n` triangles, added up in
/// ascending order.
pub open spec fn volume_sum(vertices: Seq<Vec3>, triangles: Seq<[u32; 3]>, n: nat) -> Double
    decreases n,
{
    if n == 0 {
        Double { bits: 0 }
    } else {
        let (a, b, c) = corners_of(vertices, triangles[n - 1]);
        sum(volume_sum(vertices, triangles, (n - 1) as nat), dot_product(a, cross_product(b, c)))
    }
}

/// Twice the area of the first `n` triangles, added up in ascending order.
pub open spec fn area_sum(vertices: Seq<Vec3>, triangles: Seq<[u32; 3]>, n: nat) -> Double
    decreases n,
{
    if n == 0 {
        Double { bits: 0 }
    } else {
        let (a, b, c) = corners_of(vertices, triangles[n - 1]);
        sum(
            area_sum(vertices, triangles, (n - 1) as nat),
            vector_length(cross_product(vector_difference(b, a), vector_difference(c, a))),
        )
    }
}

/// The double six.
pub open spec fn six() -> Double {
    Double { bits: 0x4018_0000_0000_0000 }
}

/// The double three.
pub open spec fn three() -> Double {
    Double { bits: 0x4008_0000_0000_0000 }
}

/// The double two.
pub open spec fn two() -> Double {
    Double { bits: 0x4000_0000_0000_0000 }
}

impl TriMesh {
    /// The vertices.
    pub closed spec fn points(self) -> Seq<Vec3> {
        self.vertices@
    }

    /// The triangles.
    pub closed spec fn faces(self) -> Seq<[u32; 3]> {
        self.triangles@
    }

    /// The metadata.
    pub closed spec fn origin(self) -> MeshMeta {
        self.meta
    }

    /// What every mesh satisfies.
    #[verifier::type_invariant]
    pub open spec fn inv(self) -> bool {
        sound(self.points(), self.faces())
    }

    /// The corners of triangle `i`.
    pub open spec fn corners(self, i: int) -> (Vec3, Vec3, Vec3) {
        corners_of(self.points(), self.faces()[i])
    }

    /// Builds a mesh, validating coordinates and indices.
    ///
    /// Nothing is repaired, and degenerate triangles are accepted. The first
    /// problem is returned, scanning vertices before triangles.
    pub fn new(vertices: Vec<Vec3>, triangles: Vec<[u32; 3]>, meta: MeshMeta) -> (r: Result<TriMesh, MeshError>)
        ensures
            match r {
                Ok(m) => mesh_fault(vertices@, triangles@) is None && m.points() == vertices@ && m.faces()
                    == triangles@ && m.origin() == meta,
                Err(e) => mesh_fault(vertices@, triangles@) == Some(e),
            },
    {
        if vertices.len() > u32::MAX as usize {
            return Err(MeshError::TooManyVertices { count: vertices.len() });
        }
        if triangles.len() > u32::MAX as usize {
            return Err(MeshError::TooManyTriangles { count: triangles.len() });
        }
        let vertex_count: u32 = vertices.len() as u32;
        let mut i: usize = 0;
        while i < vertices.len()
            invariant
                i <= vertices.len() <= u32::MAX,
                triangles.len() <= u32::MAX,
                mesh_fault_from(vertices@, triangles@, 0, 0) == mesh_fault_from(vertices@, triangles@, i as int, 0),
            decreases vertices.len() - i,
        {
            match find_vertex_fault(vertices[i], i as u32) {
                Some(e) => {
                    return Err(e);
                },
                None => {},
            }
            i = i + 1;
        }
        let mut j: usize = 0;
        while j < triangles.len()
            invariant
                j <= triangles.len() <= u32::MAX,
                vertices.len() <= u32::MAX,
                vertex_count == vertices.len(),
                mesh_fault_from(vertices@, triangles@, 0, 0) == mesh_fault_from(
                    vertices@,
                    triangles@,
                    vertices@.len() as int,
                    j as int,
                ),
            decreases triangles.len() - j,
        {
            let t: [u32; 3] = triangles[j];
            let mut k: usize = 0;
            while k < 3
                invariant
                    k <= 3,
                    j < triangles.len() <= u32::MAX,
                    t == triangles@[j as int],
                    vertex_count == vertices.len(),
                    vertices.len() <= u32::MAX,
                    mesh_fault_from(vertices@, triangles@, 0, 0) == mesh_fault_from(
                        vertices@,
                        triangles@,
                        vertices@.len() as int,
                        j as int,
                    ),
                    k > 0 ==> t[0] < vertex_count,
                    k > 1 ==> t[1] < vertex_count,
                    k > 2 ==> t[2] < vertex_count,
                decreases 3 - k,
            {
                if t[k] >= vertex_count {
                    return Err(MeshError::IndexOutOfRange { triangle: j as u32, index: t[k], vertex_count });
                }
                k = k + 1;
            }
            j = j + 1;
        }
        proof {
            law_faultless_is_sound(vertices@, triangles@);
        }
        Ok(TriMesh { vertices, triangles, meta })
    }

    /// The vertices, in index order.
    pub fn vertices(&self) -> (r: &[Vec3])
        ensures
            r@ == self.points(),
    {
        self.vertices.as_slice()
    }

    /// The triangles, as vertex index triples, in index order.
    pub fn triangles(&self) -> (r: &[[u32; 3]])
        ensures
            r@ == self.faces(),
    {
        self.triangles.as_slice()
    }

    /// Provenance and unit metadata.
    pub fn meta(&self) -> (r: &MeshMeta)
        ensures
            *r == self.origin(),
    {
        &self.meta
    }

    /// Replaces the metadata.
    pub fn set_meta(&mut self, meta: MeshMeta)
        ensures
            final(self).origin() == meta,
            final(self).points() == old(self).points(),
            final(self).faces() == old(self).faces(),
    {
        proof {
            use_type_invariant(&*self);
        }
        self.meta = meta;
    }

    /// Number of vertices.
    pub fn vertex_count(&self) -> (n: u32)
        ensures
            n == self.points().len(),
    {
        proof {
            use_type_invariant(self);
        }
        self.vertices.len() as u32
    }

    /// Number of triangles.
    pub fn triangle_count(&self) -> (n: u32)
        ensures
            n == self.faces().len(),
    {
        proof {
            use_type_invariant(self);
        }
        self.triangles.len() as u32
    }

    /// True if the mesh has no triangles.
    pub fn is_empty(&self) -> (r: bool)
        ensures
            r == (self.faces().len() == 0),
    {
        self.triangles.len() == 0
    }

    /// The three corners of triangle `i`.
    pub fn triangle(&self, i: u32) -> (r: [Vec3; 3])
        requires
            i < self.faces().len(),
        ensures
            (r[0], r[1], r[2]) == self.corners(i as int),
            r[0].finite() && r[1].finite() && r[2].finite(),
    {
        proof {
            use_type_invariant(self);
        }
        let t: [u32; 3] = self.triangles[i as usize];
        proof {
            assert(t == self.faces()[i as int]);
            assert(sound_vertex(self.points()[t[0] as int]));
            assert(sound_vertex(self.points()[t[1] as int]));
            assert(sound_vertex(self.points()[t[2] as int]));
        }
        [self.vertices[t[0] as usize], self.vertices[t[1] as usize], self.vertices[t[2] as usize]]
    }

    /// The computed unit normal of triangle `i`, or `None` where there is none.
    pub fn face_normal(&self, i: u32) -> (r: Option<Vec3>)
        requires
            i < self.faces().len(),
        ensures
            ({
                let (a, b, c) = self.corners(i as int);
                r == normalized_vector(cross_product(vector_difference(b, a), vector_difference(c, a)))
            }),
    {
        let t: [Vec3; 3] = self.triangle(i);
        t[1].minus(t[0]).cross(t[2].minus(t[0])).normalize()
    }

    /// Twice the area of triangle `i`.
    pub fn double_area(&self, i: u32) -> (r: Double)
        requires
            i < self.faces().len(),
        ensures
            ({
                let (a, b, c) = self.corners(i as int);
                r == vector_length(cross_product(vector_difference(b, a), vector_difference(c, a)))
            }),
    {
        let t: [Vec3; 3] = self.triangle(i);
        t[1].minus(t[0]).cross(t[2].minus(t[0])).length()
    }

    /// Axis-aligned bounds of every vertex.
    pub fn bounds(&self) -> (b: Aabb3)
        ensures
            b == box_around(self.points(), self.points().len()),
    {
        Aabb3::from_points(self.vertices.as_slice())
    }

    /// The centroid of triangle `i`: the sum of a third of each corner.
    pub fn centroid(&self, i: u32) -> (r: Vec3)
        requires
            i < self.faces().len(),
        ensures
            r == centroid_of(self.corners(i as int)),
    {
        let t: [Vec3; 3] = self.triangle(i);
        let three: Double = Double::from_bits(0x4008_0000_0000_0000);
        t[0].over(three).plus(t[1].over(three)).plus(t[2].over(three))
    }

    /// Signed volume enclosed by the surface, added up in ascending triangle
    /// order.
    pub fn signed_volume(&self) -> (r: Double)
        ensures
            r == quotient(volume_sum(self.points(), self.faces(), self.faces().len()), six()),
    {
        let mut total: Double = Double::zeroed();
        let n: u32 = self.triangle_count();
        let mut i: u32 = 0;
        while i < n
            invariant
                i <= n,
                n == self.faces().len(),
                total == volume_sum(self.points(), self.faces(), i as nat),
            decreases n - i,
        {
            let t: [Vec3; 3] = self.triangle(i);
            total = total.plus(t[0].dot(t[1].cross(t[2])));
            i = i + 1;
        }
        total.over(Double::from_bits(0x4018_0000_0000_0000))
    }

    /// Total surface area, added up in ascending triangle order.
    pub fn surface_area(&self) -> (r: Double)
        ensures
            r == quotient(area_sum(self.points(), self.faces(), self.faces().len()), two()),
    {
        let mut total: Double = Double::zeroed();
        let n: u32 = self.triangle_count();
        let mut i: u32 = 0;
        while i < n
            invariant
                i <= n,
                n == self.faces().len(),
                total == area_sum(self.points(), self.faces(), i as nat),
            decreases n - i,
        {
            total = total.plus(self.double_area(i));
            i = i + 1;
        }
        total.over(Double::from_bits(0x4000_0000_0000_0000))
    }
}

/// The sum of a third of each corner.
pub open spec fn centroid_of(t: (Vec3, Vec3, Vec3)) -> Vec3 {
    vector_sum(vector_sum(vector_quotient(t.0, three()), vector_quotient(t.1, three())), vector_quotient(t.2, three()))
}

fn find_vertex_fault(v: Vec3, vertex: u32) -> (r: Option<MeshError>)
    ensures
        r == vertex_fault(v, vertex),
{
    let range: CoordRange = orient3d_range();
    let mut axis: usize = 0;
    while axis < 3
        invariant
            axis <= 3,
            range == orient3d_coords(),
            forall|a: int| 0 <= a < axis ==> #[trigger] coordinate_fault(v, vertex, a) is None,
        decreases 3 - axis,
    {
        let value: Double = v.component(axis);
        let ghost here = coordinate_fault(v, vertex, axis as int);
        if !value.is_finite() {
            assert(forall|a: int| 0 <= a < axis ==> #[trigger] coordinate_fault(v, vertex, a) is None);
            proof {
                lemma_first_fault(v, vertex, axis as int);
            }
            return Some(MeshError::NonFiniteCoordinate { vertex, axis, value, location: None });
        }
        if !range.contains(value) {
            proof {
                lemma_first_fault(v, vertex, axis as int);
            }
            return Some(
                MeshError::CoordinateOutOfRange { vertex, axis, value, min: range.min, max: range.max },
            );
        }
        axis = axis + 1;
    }
    assert(coordinate_fault(v, vertex, 0) is None);
    assert(coordinate_fault(v, vertex, 1) is None);
    assert(coordinate_fault(v, vertex, 2) is None);
    None
}

proof fn lemma_first_fault(v: Vec3, vertex: u32, axis: int)
    requires
        0 <= axis < 3,
        coordinate_fault(v, vertex, axis) is Some,
        forall|a: int| 0 <= a < axis ==> #[trigger] coordinate_fault(v, vertex, a) is None,
    ensures
        vertex_fault(v, vertex) == coordinate_fault(v, vertex, axis),
{
    if axis > 0 {
        assert(coordinate_fault(v, vertex, 0) is None);
    }
    if axis > 1 {
        assert(coordinate_fault(v, vertex, 1) is None);
    }
}

} // verus!
