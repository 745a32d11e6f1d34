use vstd::prelude::*;

verus! {

/// A point on the surface of a shape, in the shape's own parameter space.
///
/// The tessellator decides which sample points form which primitives; turning a
/// sample into coordinates (scaling by the shape's extents, the trigonometry of
/// the round shapes, the object's transform) is left to the caller.
#[derive(Clone, Copy, Debug, PartialEq, Eq, Structural)]
pub enum Sample {
    /// A point of the lattice `{-1, 0, 1}^3`, to be scaled by the shape's half
    /// extents along each axis.
    Corner { x: i8, y: i8, z: i8 },
    /// A point of a capsule's hemispherical cap: longitude step `lon` out of the
    /// capsule's subdivisions, latitude step `lat` out of its latitude steps,
    /// counted from the cap's rim (`lat == 0`, where the cap meets the body)
    /// towards its pole. `upper` tells the top cap from the bottom one.
    Cap { lon: usize, lat: usize, upper: bool },
    /// A point of a sphere: longitude step `lon` out of the sphere's
    /// subdivisions, latitude step `lat` out of its latitude steps, counted
    /// from the south pole (`lat == 0`) to the north pole.
    Globe { lon: usize, lat: usize },
}

/// One entry of the flat vertex buffer: which object it belongs to and which
/// point of that object's shape it stands for.
#[derive(Clone, Copy, Debug, PartialEq, Eq, Structural)]
pub struct Vertex {
    pub object: usize,
    pub sample: Sample,
}

/// A primitive as the tessellator emits it, corners in winding order.
#[derive(Clone, Copy, Debug, PartialEq, Eq, Structural)]
pub enum Face {
    Tri(Sample, Sample, Sample),
    Quad(Sample, Sample, Sample, Sample),
}

/// The mesh buffer cannot take more vertices: their indices would leave the
/// range of `u32`.
#[derive(Clone, Copy, Debug, PartialEq, Eq, Structural)]
pub enum MeshError {
    IndexOverflow,
}

/// Index of a baked geometry in a [`MeshRegistry`].
#[derive(Clone, Copy, Debug, PartialEq, Eq, Structural)]
pub struct GeometryId(pub usize);

/// Flat vertex and index arrays, ready for upload.
///
/// Every quad adds 4 fresh vertices and 6 indices (two triangles split along
/// the diagonal from its first corner); every triangle adds 3 vertices and 3
/// indices. Nothing is shared between primitives.
pub struct MeshData {
    pub vertices: Vec<Vertex>,
    pub indices: Vec<u32>,
}

/// The vertex a sample point of an object becomes.
pub open spec fn vertex_of(object: usize, s: Sample) -> Vertex {
    Vertex { object, sample: s }
}

/// Number of vertices a primitive adds.
pub open spec fn face_vertex_count(f: Face) -> int {
    match f {
        Face::Tri(..) => 3,
        Face::Quad(..) => 4,
    }
}

/// Number of vertices a sequence of primitives adds.
pub open spec fn faces_vertex_count(fs: Seq<Face>) -> int
    decreases fs.len(),
{
    if fs.len() == 0 {
        0
    } else {
        faces_vertex_count(fs.drop_last()) + face_vertex_count(fs.last())
    }
}

/// Number of indices a sequence of primitives adds.
pub open spec fn faces_index_count(fs: Seq<Face>) -> int
    decreases fs.len(),
{
    if fs.len() == 0 {
        0
    } else {
        faces_index_count(fs.drop_last()) + match fs.last() {
            Face::Tri(..) => 3int,
            Face::Quad(..) => 6int,
        }
    }
}

/// The buffers after appending one primitive of `object` to buffers `m`.
pub open spec fn emit_face(m: (Seq<Vertex>, Seq<u32>), object: usize, f: Face) -> (
    Seq<Vertex>,
    Seq<u32>,
) {
    let n = m.0.len();
    match f {
        Face::Tri(a, b, c) => (
            m.0 + seq![vertex_of(object, a), vertex_of(object, b), vertex_of(object, c)],
            m.1 + seq![n as u32, (n + 1) as u32, (n + 2) as u32],
        ),
        Face::Quad(a, b, c, d) => (
            m.0 + seq![
                vertex_of(object, a),
                vertex_of(object, b),
                vertex_of(object, c),
                vertex_of(object, d),
            ],
            m.1 + seq![
                n as u32,
                (n + 1) as u32,
                (n + 2) as u32,
                n as u32,
                (n + 2) as u32,
                (n + 3) as u32,
            ],
        ),
    }
}

/// The buffers after appending the primitives `fs` of `object`, in order.
pub open spec fn emit_faces(m: (Seq<Vertex>, Seq<u32>), object: usize, fs: Seq<Face>) -> (
    Seq<Vertex>,
    Seq<u32>,
)
    decreases fs.len(),
{
    if fs.len() == 0 {
        m
    } else {
        emit_face(emit_faces(m, object, fs.drop_last()), object, fs.last())
    }
}

/// Whether every corner of a primitive satisfies `p`.
pub open spec fn face_all(f: Face, p: spec_fn(Sample) -> bool) -> bool {
    match f {
        Face::Tri(a, b, c) => p(a) && p(b) && p(c),
        Face::Quad(a, b, c, d) => p(a) && p(b) && p(c) && p(d),
    }
}

/// Whether `s` is one of the corners of a primitive.
pub open spec fn face_has(f: Face, s: Sample) -> bool {
    match f {
        Face::Tri(a, b, c) => a == s || b == s || c == s,
        Face::Quad(a, b, c, d) => a == s || b == s || c == s || d == s,
    }
}

/// Number of primitives among `fs` that have `s` as a corner.
pub open spec fn faces_with(fs: Seq<Face>, s: Sample) -> int
    decreases fs.len(),
{
    if fs.len() == 0 {
        0
    } else {
        faces_with(fs.drop_last(), s) + if face_has(fs.last(), s) {
            1int
        } else {
            0
        }
    }
}

/// The vertices appended for primitives whose corners all satisfy `p` belong
/// to `object` and stand for samples that satisfy `p`.
pub proof fn lemma_emit_samples(
    m: (Seq<Vertex>, Seq<u32>),
    object: usize,
    fs: Seq<Face>,
    p: spec_fn(Sample) -> bool,
)
    requires
        forall|k: int| 0 <= k < fs.len() ==> face_all(#[trigger] fs[k], p),
    ensures
        emit_faces(m, object, fs).0.len() >= m.0.len(),
        forall|k: int|
            m.0.len() <= k < emit_faces(m, object, fs).0.len() ==> {
                &&& (#[trigger] emit_faces(m, object, fs).0[k]).object == object
                &&& p(emit_faces(m, object, fs).0[k].sample)
            },
    decreases fs.len(),
{
    if fs.len() > 0 {
        let d = fs.drop_last();
        assert forall|k: int| 0 <= k < d.len() implies face_all(#[trigger] d[k], p) by {
            assert(d[k] == fs[k]);
        }
        lemma_emit_samples(m, object, d, p);
        assert(face_all(fs[fs.len() - 1], p));
        assert(fs.last() == fs[fs.len() - 1]);
        let prev = emit_faces(m, object, d);
        let r = emit_faces(m, object, fs);
        assert forall|k: int| m.0.len() <= k < r.0.len() implies {
            &&& (#[trigger] r.0[k]).object == object
            &&& p(r.0[k].sample)
        } by {
            if k < prev.0.len() {
                assert(r.0[k] == prev.0[k]);
            }
        }
    }
}

/// Every index refers to a vertex of the buffer.
pub open spec fn indices_in_range(m: (Seq<Vertex>, Seq<u32>)) -> bool {
    forall|k: int| 0 <= k < m.1.len() ==> (#[trigger] m.1[k] as int) < m.0.len()
}

/// Vertex counts do not depend on index range: appending primitives adds
/// their vertex count, and keeps the vertices already there.
pub proof fn lemma_emit_len(m: (Seq<Vertex>, Seq<u32>), object: usize, fs: Seq<Face>)
    ensures
        emit_faces(m, object, fs).0.len() == m.0.len() + faces_vertex_count(fs),
        emit_faces(m, object, fs).0.subrange(0, m.0.len() as int) == m.0,
    decreases fs.len(),
{
    if fs.len() > 0 {
        lemma_emit_len(m, object, fs.drop_last());
        lemma_counts_nonneg(fs.drop_last());
        let p = emit_faces(m, object, fs.drop_last());
        let r = emit_faces(m, object, fs);
        assert(r.0.subrange(0, m.0.len() as int) =~= p.0.subrange(0, m.0.len() as int));
    }
}

/// The corner of a quad at position `c` (0 to 3).
pub open spec fn quad_corner(f: Face, c: int) -> Sample {
    match f {
        Face::Quad(a, b, cc, d) => if c == 0 {
            a
        } else if c == 1 {
            b
        } else if c == 2 {
            cc
        } else {
            d
        },
        Face::Tri(a, b, cc) => if c == 0 {
            a
        } else if c == 1 {
            b
        } else {
            cc
        },
    }
}

/// In a run of quads, the `k`-th quad's corners are vertices `4 * k` to
/// `4 * k + 3` after those already in the buffer.
pub proof fn lemma_quad_vertex(m: (Seq<Vertex>, Seq<u32>), object: usize, fs: Seq<Face>, k: int)
    requires
        forall|q: int| 0 <= q < fs.len() ==> (#[trigger] fs[q]) is Quad,
        0 <= k < fs.len(),
    ensures
        forall|c: int|
            0 <= c < 4 ==> #[trigger] emit_faces(m, object, fs).0[m.0.len() + 4 * k + c]
                == vertex_of(object, quad_corner(fs[k], c)),
    decreases fs.len(),
{
    let d = fs.drop_last();
    assert forall|q: int| 0 <= q < d.len() implies (#[trigger] d[q]) is Quad by {
        assert(d[q] == fs[q]);
    }
    lemma_quad_counts(d);
    lemma_emit_len(m, object, d);
    let p = emit_faces(m, object, d);
    let r = emit_faces(m, object, fs);
    assert(r == emit_face(p, object, fs.last()));
    assert(fs.last() == fs[fs.len() - 1]);
    if k < d.len() {
        lemma_quad_vertex(m, object, d, k);
        assert(d[k] == fs[k]);
        assert forall|c: int| 0 <= c < 4 implies #[trigger] r.0[m.0.len() + 4 * k + c] == vertex_of(
            object,
            quad_corner(fs[k], c),
        ) by {
            assert(m.0.len() + 4 * k + c < p.0.len());
            assert(r.0[m.0.len() + 4 * k + c] == p.0[m.0.len() + 4 * k + c]);
        }
    }
}

/// Appending primitives adds exactly their vertex and index counts and keeps
/// every index in range, as long as the new vertices stay addressable.
pub proof fn lemma_emit_faces(m: (Seq<Vertex>, Seq<u32>), object: usize, fs: Seq<Face>)
    requires
        indices_in_range(m),
        m.0.len() + faces_vertex_count(fs) <= 0x1_0000_0000,
    ensures
        emit_faces(m, object, fs).0.len() == m.0.len() + faces_vertex_count(fs),
        emit_faces(m, object, fs).1.len() == m.1.len() + faces_index_count(fs),
        emit_faces(m, object, fs).0.subrange(0, m.0.len() as int) == m.0,
        emit_faces(m, object, fs).1.subrange(0, m.1.len() as int) == m.1,
        indices_in_range(emit_faces(m, object, fs)),
    decreases fs.len(),
{
    if fs.len() > 0 {
        let prev = fs.drop_last();
        lemma_counts_nonneg(prev);
        lemma_counts_nonneg(fs);
        lemma_emit_faces(m, object, prev);
        let p = emit_faces(m, object, prev);
        let r = emit_faces(m, object, fs);
        assert(r == emit_face(p, object, fs.last()));
        assert(r.0.subrange(0, p.0.len() as int) =~= p.0);
        assert(r.1.subrange(0, p.1.len() as int) =~= p.1);
        assert(r.0.subrange(0, m.0.len() as int) =~= p.0.subrange(0, m.0.len() as int));
        assert(r.1.subrange(0, m.1.len() as int) =~= p.1.subrange(0, m.1.len() as int));
        assert forall|k: int| 0 <= k < r.1.len() implies (#[trigger] r.1[k] as int) < r.0.len() by {
            if k < p.1.len() {
                assert(r.1[k] == p.1[k]);
            }
        }
    }
}

/// Vertex and index counts are never negative, and grow with every primitive.
pub proof fn lemma_counts_nonneg(fs: Seq<Face>)
    ensures
        faces_vertex_count(fs) >= 3 * fs.len(),
        faces_index_count(fs) >= 3 * fs.len(),
    decreases fs.len(),
{
    if fs.len() > 0 {
        lemma_counts_nonneg(fs.drop_last());
    }
}

/// A run of quads adds four vertices and six indices per quad.
pub proof fn lemma_quad_counts(fs: Seq<Face>)
    requires
        forall|k: int| 0 <= k < fs.len() ==> (#[trigger] fs[k]) is Quad,
    ensures
        faces_vertex_count(fs) == 4 * fs.len(),
        faces_index_count(fs) == 6 * fs.len(),
    decreases fs.len(),
{
    if fs.len() > 0 {
        let prev = fs.drop_last();
        assert forall|k: int| 0 <= k < prev.len() implies (#[trigger] prev[k]) is Quad by {
            assert(prev[k] == fs[k]);
        }
        lemma_quad_counts(prev);
        assert(fs.last() == fs[fs.len() - 1]);
    }
}

/// Emitting a prefix one primitive longer appends that primitive.
pub proof fn lemma_emit_step(m: (Seq<Vertex>, Seq<u32>), object: usize, fs: Seq<Face>, k: int)
    requires
        0 <= k < fs.len(),
    ensures
        emit_faces(m, object, fs.take(k + 1)) == emit_face(
            emit_faces(m, object, fs.take(k)),
            object,
            fs[k],
        ),
{
    assert(fs.take(k + 1).drop_last() =~= fs.take(k));
    assert(fs.take(k + 1).last() == fs[k]);
}

impl View for MeshData {
    type V = (Seq<Vertex>, Seq<u32>);

    open spec fn view(&self) -> (Seq<Vertex>, Seq<u32>) {
        (self.vertices@, self.indices@)
    }
}

impl MeshData {
    /// The buffers hang together: every index names one of the vertices.
    pub open spec fn wf(&self) -> bool {
        indices_in_range(self@)
    }

    /// An empty buffer pair.
    pub fn new() -> (r: Self)
        ensures
            r@.0.len() == 0,
            r@.1.len() == 0,
            r.wf(),
    {
        MeshData { vertices: Vec::new(), indices: Vec::new() }
    }

    /// Empties both arrays, for a buffer that is rebuilt wholesale.
    pub fn clear(&mut self)
        ensures
            final(self)@.0.len() == 0,
            final(self)@.1.len() == 0,
            final(self).wf(),
    {
        self.vertices.clear();
        self.indices.clear();
    }

    /// Appends a quad of `object`: four new vertices, then the two triangles
    /// `(0, 1, 2)` and `(0, 2, 3)` over them.
    pub fn push_quad(&mut self, object: usize, a: Sample, b: Sample, c: Sample, d: Sample)
        requires
            old(self).vertices@.len() + 4 <= 0x1_0000_0000,
        ensures
            final(self)@ == emit_face(old(self)@, object, Face::Quad(a, b, c, d)),
            old(self).wf() ==> final(self).wf(),
    {
        let start = self.vertices.len() as u32;
        self.vertices.push(Vertex { object, sample: a });
        self.vertices.push(Vertex { object, sample: b });
        self.vertices.push(Vertex { object, sample: c });
        self.vertices.push(Vertex { object, sample: d });
        self.indices.push(start);
        self.indices.push(start + 1);
        self.indices.push(start + 2);
        self.indices.push(start);
        self.indices.push(start + 2);
        self.indices.push(start + 3);
        assert(self@.0 =~= emit_face(old(self)@, object, Face::Quad(a, b, c, d)).0);
        assert(self@.1 =~= emit_face(old(self)@, object, Face::Quad(a, b, c, d)).1);
    }

    /// Appends a triangle of `object`: three new vertices and their indices.
    pub fn push_triangle(&mut self, object: usize, a: Sample, b: Sample, c: Sample)
        requires
            old(self).vertices@.len() + 3 <= 0x1_0000_0000,
        ensures
            final(self)@ == emit_face(old(self)@, object, Face::Tri(a, b, c)),
            old(self).wf() ==> final(self).wf(),
    {
        let start = self.vertices.len() as u32;
        self.vertices.push(Vertex { object, sample: a });
        self.vertices.push(Vertex { object, sample: b });
        self.vertices.push(Vertex { object, sample: c });
        self.indices.push(start);
        self.indices.push(start + 1);
        self.indices.push(start + 2);
        assert(self@.0 =~= emit_face(old(self)@, object, Face::Tri(a, b, c)).0);
        assert(self@.1 =~= emit_face(old(self)@, object, Face::Tri(a, b, c)).1);
    }

    /// Appends one primitive of `object`.
    pub fn push_face(&mut self, object: usize, f: Face)
        requires
            old(self).vertices@.len() + face_vertex_count(f) <= 0x1_0000_0000,
        ensures
            final(self)@ == emit_face(old(self)@, object, f),
            old(self).wf() ==> final(self).wf(),
    {
        match f {
            Face::Tri(a, b, c) => self.push_triangle(object, a, b, c),
            Face::Quad(a, b, c, d) => self.push_quad(object, a, b, c, d),
        }
    }
}

/// The collection of baked geometries; a geometry's id is its position.
pub struct MeshRegistry<B> {
    pub baked_geometries: Vec<B>,
}

impl<B> MeshRegistry<B> {
    /// An empty registry.
    pub fn new() -> (r: Self)
        ensures
            r.baked_geometries@.len() == 0,
    {
        MeshRegistry { baked_geometries: Vec::new() }
    }

    /// Stores a baked geometry and returns its id: the number of geometries
    /// stored before it.
    pub fn add(&mut self, baked: B) -> (r: GeometryId)
        ensures
            r.0 == old(self).baked_geometries@.len(),
            final(self).baked_geometries@ == old(self).baked_geometries@.push(baked),
    {
        let id = self.baked_geometries.len();
        self.baked_geometries.push(baked);
        GeometryId(id)
    }
}

} // verus!
