use vstd::prelude::*;
use vstd::arithmetic::div_mod::lemma_fundamental_div_mod_converse;
use crate::mesh::{
    Face, MeshData, MeshError, Sample, Vertex, emit_faces, face_all, faces_index_count,
    faces_vertex_count, faces_with, indices_in_range, lemma_emit_faces, lemma_emit_step,
    lemma_quad_counts, lemma_quad_vertex,
};

verus! {

/// A shape descriptor. `F` is the scalar type of the extents, which the
/// tessellation never reads: it only decides which sample points form which
/// primitives.
pub enum Geometry<F> {
    /// A cube with edge `size`: a `Box` with three equal sides.
    Cube { size: F },
    Box { width: F, height: F, depth: F },
    /// A square of side `size` in the plane `y = 0`, visible from both sides.
    Plane { size: F },
    /// A square base of side `base_size`, apex `height` above it.
    Pyramid { base_size: F, height: F },
    /// A cylinder of `height` closed by two hemispheres of `radius`.
    Capsule { radius: F, height: F, subdivisions: usize },
    Sphere { radius: F, subdivisions: usize },
}

/// The lattice point `(x, y, z)`.
pub open spec fn corner(x: int, y: int, z: int) -> Sample {
    Sample::Corner { x: x as i8, y: y as i8, z: z as i8 }
}

/// Latitude steps of a round shape with `n` longitude steps: half of them,
/// but never fewer than four, so that small counts still give round caps.
pub open spec fn lat_steps(n: int) -> int {
    if n / 2 > 4 {
        n / 2
    } else {
        4
    }
}

/// The six faces of a box (front, back, left, right, top, bottom), each wound
/// so that its front faces outwards. Corners are named front/back (`z`),
/// bottom/top (`y`), left/right (`x`).
pub open spec fn box_faces() -> Seq<Face> {
    let fbl = corner(-1, -1, 1);
    let fbr = corner(1, -1, 1);
    let ftr = corner(1, 1, 1);
    let ftl = corner(-1, 1, 1);
    let bbl = corner(-1, -1, -1);
    let bbr = corner(1, -1, -1);
    let btr = corner(1, 1, -1);
    let btl = corner(-1, 1, -1);
    seq![
        Face::Quad(fbl, fbr, ftr, ftl),
        Face::Quad(bbr, bbl, btl, btr),
        Face::Quad(bbl, fbl, ftl, btl),
        Face::Quad(fbr, bbr, btr, ftr),
        Face::Quad(ftl, ftr, btr, btl),
        Face::Quad(bbl, bbr, fbr, fbl),
    ]
}

/// A plane's top face and the same square wound the other way, so that it is
/// seen from both sides under back-face culling.
pub open spec fn plane_faces() -> Seq<Face> {
    let fl = corner(-1, 0, 1);
    let fr = corner(1, 0, 1);
    let br = corner(1, 0, -1);
    let bl = corner(-1, 0, -1);
    seq![Face::Quad(fl, fr, br, bl), Face::Quad(bl, br, fr, fl)]
}

/// Four side triangles fanned from the apex, then the base.
pub open spec fn pyramid_faces() -> Seq<Face> {
    let tip = corner(0, 1, 0);
    let fl = corner(-1, -1, 1);
    let fr = corner(1, -1, 1);
    let br = corner(1, -1, -1);
    let bl = corner(-1, -1, -1);
    seq![
        Face::Tri(tip, fl, fr),
        Face::Tri(tip, fr, br),
        Face::Tri(tip, br, bl),
        Face::Tri(tip, bl, fl),
        Face::Quad(bl, br, fr, fl),
    ]
}

/// The sample on the sphere at longitude step `i` and latitude step `j`.
pub open spec fn globe(i: int, j: int) -> Sample {
    Sample::Globe { lon: i as usize, lat: j as usize }
}

/// The `k`-th quad of a sphere with `n` longitude steps: band `k / l`, cell
/// `k % l` from the south pole, where `l` is the number of latitude steps. The
/// band's far edge is longitude `(i + 1) % n`, so the last band closes on the
/// first one.
pub open spec fn sphere_face(n: int, k: int) -> Face {
    let l = lat_steps(n);
    let i = k / l;
    let j = k % l;
    let i1 = (i + 1) % n;
    Face::Quad(globe(i, j), globe(i1, j), globe(i1, j + 1), globe(i, j + 1))
}

pub open spec fn sphere_faces(n: int) -> Seq<Face> {
    Seq::new((n * lat_steps(n)) as nat, |k: int| sphere_face(n, k))
}

/// The sample on a capsule's cap at longitude step `i` and latitude step `j`.
pub open spec fn cap(i: int, j: int, upper: bool) -> Sample {
    Sample::Cap { lon: i as usize, lat: j as usize, upper }
}

/// The `k`-th primitive of a capsule with `n` longitude steps. Each band `i`
/// gives `1 + 2 * l` quads: its strip of the cylindrical body, then for each
/// latitude step `j` one quad of the top cap and one of the bottom cap. The
/// bottom cap's corners run the other way round, so that it faces down.
pub open spec fn capsule_face(n: int, k: int) -> Face {
    let l = lat_steps(n);
    let c = 1 + 2 * l;
    let i = k / c;
    let r = k % c;
    let i1 = (i + 1) % n;
    if r == 0 {
        Face::Quad(cap(i, 0, false), cap(i1, 0, false), cap(i1, 0, true), cap(i, 0, true))
    } else {
        let j = (r - 1) / 2;
        if (r - 1) % 2 == 0 {
            Face::Quad(cap(i, j, true), cap(i1, j, true), cap(i1, j + 1, true), cap(i, j + 1, true))
        } else {
            Face::Quad(
                cap(i, j, false),
                cap(i, j + 1, false),
                cap(i1, j + 1, false),
                cap(i1, j, false),
            )
        }
    }
}

pub open spec fn capsule_faces(n: int) -> Seq<Face> {
    Seq::new((n * (1 + 2 * lat_steps(n))) as nat, |k: int| capsule_face(n, k))
}

impl<F> Geometry<F> {
    /// The primitives of the shape, in the order they are emitted.
    pub open spec fn faces(&self) -> Seq<Face> {
        match self {
            Geometry::Cube { .. } => box_faces(),
            Geometry::Box { .. } => box_faces(),
            Geometry::Plane { .. } => plane_faces(),
            Geometry::Pyramid { .. } => pyramid_faces(),
            Geometry::Capsule { subdivisions, .. } => capsule_faces(*subdivisions as int),
            Geometry::Sphere { subdivisions, .. } => sphere_faces(*subdivisions as int),
        }
    }

    /// Number of vertices the shape adds to a buffer.
    pub open spec fn vertex_count(&self) -> int {
        faces_vertex_count(self.faces())
    }

    /// Number of indices the shape adds to a buffer.
    pub open spec fn index_count(&self) -> int {
        faces_index_count(self.faces())
    }

    /// Appends the primitives of the shape, as vertices of `object`, to `mesh`.
    /// Fails, leaving `mesh` as it was, where the buffer would then hold more
    /// vertices than `u32` indices can address.
    pub fn generate_mesh_data(&self, mesh: &mut MeshData, object: usize) -> (r: Result<
        (),
        MeshError,
    >)
        requires
            old(mesh).wf(),
        ensures
            final(mesh).wf(),
            r is Ok <==> old(mesh)@.0.len() + self.vertex_count() <= 0x1_0000_0000,
            r is Ok ==> final(mesh)@ == emit_faces(old(mesh)@, object, self.faces()),
            r is Ok ==> final(mesh)@.0.len() == old(mesh)@.0.len() + self.vertex_count(),
            r is Ok ==> final(mesh)@.1.len() == old(mesh)@.1.len() + self.index_count(),
            r is Err ==> final(mesh)@ == old(mesh)@,
    {
        let demand = self.vertex_demand();
        let have = mesh.vertices.len() as u64;
        if have > 0x1_0000_0000 || demand > 0x1_0000_0000 - have {
            return Err(MeshError::IndexOverflow);
        }
        proof {
            lemma_box_counts();
            lemma_emit_faces(mesh@, object, self.faces());
        }
        match self {
            Geometry::Cube { .. } => push_box(mesh, object),
            Geometry::Box { .. } => push_box(mesh, object),
            Geometry::Plane { .. } => push_plane(mesh, object),
            Geometry::Pyramid { .. } => push_pyramid(mesh, object),
            Geometry::Capsule { subdivisions, .. } => push_capsule(mesh, object, *subdivisions),
            Geometry::Sphere { subdivisions, .. } => push_sphere(mesh, object, *subdivisions),
        }
        Ok(())
    }

    /// Vertex count of the shape where it is at most `2^32`; otherwise some
    /// number above `2^32`.
    fn vertex_demand(&self) -> (r: u64)
        ensures
            r <= 0x1_0000_0000 ==> r == self.vertex_count(),
            r > 0x1_0000_0000 ==> self.vertex_count() > 0x1_0000_0000,
    {
        proof {
            lemma_box_counts();
        }
        match self {
            Geometry::Cube { .. } => 24,
            Geometry::Box { .. } => 24,
            Geometry::Plane { .. } => 8,
            Geometry::Pyramid { .. } => 16,
            Geometry::Capsule { subdivisions, .. } => {
                let n = *subdivisions;
                proof {
                    lemma_round_counts(n as int);
                }
                if n > 0x4000_0000 {
                    proof {
                        let l = lat_steps(n as int);
                        assert(n * (1 + 2 * l) >= n) by (nonlinear_arith)
                            requires
                                l >= 4,
                                n >= 0,
                        ;
                    }
                    0x1_0000_0001
                } else {
                    let l: u64 = if n / 2 > 4 {
                        (n / 2) as u64
                    } else {
                        4
                    };
                    assert(n * (1 + 2 * l) <= 0x4000_0000 * 0x4000_0001) by (nonlinear_arith)
                        requires
                            n <= 0x4000_0000,
                            l <= 0x2000_0000,
                    ;
                    4 * ((n as u64) * (1 + 2 * l))
                }
            },
            Geometry::Sphere { subdivisions, .. } => {
                let n = *subdivisions;
                proof {
                    lemma_round_counts(n as int);
                }
                if n > 0x4000_0000 {
                    proof {
                        let l = lat_steps(n as int);
                        assert(n * l >= n) by (nonlinear_arith)
                            requires
                                l >= 4,
                                n >= 0,
                        ;
                    }
                    0x1_0000_0001
                } else {
                    let l: u64 = if n / 2 > 4 {
                        (n / 2) as u64
                    } else {
                        4
                    };
                    assert(n * l <= 0x4000_0000 * 0x2000_0000) by (nonlinear_arith)
                        requires
                            n <= 0x4000_0000,
                            l <= 0x2000_0000,
                    ;
                    4 * ((n as u64) * l)
                }
            },
        }
    }

    /// Tessellates the shape on its own, as vertices of object `0`.
    pub fn build(&self) -> (r: Result<(Vec<Vertex>, Vec<u32>), MeshError>)
        ensures
            r is Ok <==> self.vertex_count() <= 0x1_0000_0000,
            r matches Ok((v, i)) ==> (v@, i@) == emit_faces((seq![], seq![]), 0, self.faces()),
    {
        let mut mesh = MeshData::new();
        assert(mesh@ =~= (Seq::<Vertex>::empty(), Seq::<u32>::empty()));
        match self.generate_mesh_data(&mut mesh, 0) {
            Ok(()) => Ok((mesh.vertices, mesh.indices)),
            Err(e) => Err(e),
        }
    }
}

impl MeshData {
    /// Appends the primitives of `geometry`, as vertices of `object`. Fails,
    /// leaving the buffer as it was, where it would then hold more vertices
    /// than `u32` indices can address.
    pub fn add_geometry<F>(&mut self, geometry: &Geometry<F>, object: usize) -> (r: Result<
        (),
        MeshError,
    >)
        requires
            old(self).wf(),
        ensures
            final(self).wf(),
            r is Ok <==> old(self)@.0.len() + geometry.vertex_count() <= 0x1_0000_0000,
            r is Ok ==> final(self)@ == emit_faces(old(self)@, object, geometry.faces()),
            r is Ok ==> final(self)@.0.len() == old(self)@.0.len() + geometry.vertex_count(),
            r is Ok ==> final(self)@.1.len() == old(self)@.1.len() + geometry.index_count(),
            r is Err ==> final(self)@ == old(self)@,
    {
        geometry.generate_mesh_data(self, object)
    }
}

/// Latitude steps of a round shape with `n` longitude steps.
pub fn latitude_steps(n: usize) -> (r: usize)
    ensures
        r == lat_steps(n as int),
{
    if n / 2 > 4 {
        n / 2
    } else {
        4
    }
}

/// The fixed shapes have fixed counts: 24 vertices and 36 indices for a box,
/// 8 and 12 for a plane, 16 and 18 for a pyramid.
pub proof fn lemma_box_counts()
    ensures
        faces_vertex_count(box_faces()) == 24,
        faces_index_count(box_faces()) == 36,
        faces_vertex_count(plane_faces()) == 8,
        faces_index_count(plane_faces()) == 12,
        faces_vertex_count(pyramid_faces()) == 16,
        faces_index_count(pyramid_faces()) == 18,
{
    lemma_quad_counts(box_faces());
    lemma_quad_counts(plane_faces());
    let p = pyramid_faces();
    assert(p.drop_last().drop_last().drop_last().drop_last().drop_last() =~= Seq::<Face>::empty());
    reveal_with_fuel(faces_vertex_count, 6);
    reveal_with_fuel(faces_index_count, 6);
}

/// A sphere is made of `n * l` quads and a capsule of `n * (1 + 2 * l)`,
/// where `l` is the number of latitude steps.
pub proof fn lemma_round_counts(n: int)
    requires
        n >= 0,
    ensures
        faces_vertex_count(sphere_faces(n)) == 4 * (n * lat_steps(n)),
        faces_vertex_count(capsule_faces(n)) == 4 * (n * (1 + 2 * lat_steps(n))),
        faces_index_count(sphere_faces(n)) == 6 * (n * lat_steps(n)),
        faces_index_count(capsule_faces(n)) == 6 * (n * (1 + 2 * lat_steps(n))),
        n * lat_steps(n) >= 0,
        n * (1 + 2 * lat_steps(n)) >= 0,
{
    let l = lat_steps(n);
    assert(n * l >= 0) by (nonlinear_arith)
        requires
            n >= 0,
            l >= 4,
    ;
    assert(n * (1 + 2 * l) >= 0) by (nonlinear_arith)
        requires
            n >= 0,
            l >= 4,
    ;
    lemma_quad_counts(sphere_faces(n));
    lemma_quad_counts(capsule_faces(n));
}

/// A corner of the cube `{-1, 1}^3`.
pub open spec fn is_cube_corner(s: Sample) -> bool {
    s matches Sample::Corner { x, y, z } && (x == 1 || x == -1) && (y == 1 || y == -1) && (z == 1
        || z == -1)
}

/// Whatever buffer it is added to, a box (or cube) adds exactly 24 vertices
/// and 36 indices: six quads. Its corners are the eight corners of the cube
/// `{-1, 1}^3` and nothing else, and each of them is a corner of exactly
/// three of the six faces.
pub proof fn lemma_box_shape<F>(g: Geometry<F>)
    requires
        g is Box || g is Cube,
    ensures
        g.faces() == box_faces(),
        g.vertex_count() == 24,
        g.index_count() == 36,
        forall|k: int|
            0 <= k < box_faces().len() ==> face_all(#[trigger] box_faces()[k], |s| is_cube_corner(s)),
        forall|x: int, y: int, z: int|
            (x == 1 || x == -1) && (y == 1 || y == -1) && (z == 1 || z == -1) ==> #[trigger] faces_with(
                box_faces(),
                corner(x, y, z),
            ) == 3,
{
    lemma_box_counts();
    reveal_with_fuel(faces_with, 7);
    let b = box_faces();
    assert(b.drop_last().drop_last().drop_last().drop_last().drop_last().drop_last() =~= Seq::<
        Face,
    >::empty());
}

/// Whatever buffer it is added to, a sphere with `n` longitude steps adds
/// `n * l` quads, `l = max(n / 2, 4)`: `4 * n * l` vertices and `6 * n * l`
/// indices.
pub proof fn lemma_sphere_shape<F>(g: Geometry<F>)
    requires
        g is Sphere,
    ensures
        g.faces().len() == (g->Sphere_subdivisions as int) * lat_steps(g->Sphere_subdivisions as int),
        g.vertex_count() == 4 * ((g->Sphere_subdivisions as int) * lat_steps(
            g->Sphere_subdivisions as int,
        )),
        g.index_count() == 6 * ((g->Sphere_subdivisions as int) * lat_steps(
            g->Sphere_subdivisions as int,
        )),
{
    lemma_round_counts(g->Sphere_subdivisions as int);
}

/// Vertex `c` of the `k`-th quad that `fs` appends to buffers `m`.
pub open spec fn emitted_corner(
    m: (Seq<Vertex>, Seq<u32>),
    object: usize,
    fs: Seq<Face>,
    k: int,
    c: int,
) -> Vertex {
    emit_faces(m, object, fs).0[m.0.len() + 4 * k + c]
}

/// In whatever buffer a sphere with `n > 0` longitude steps is emitted, the
/// last band's far corners are the very vertices the first band starts
/// from, at longitude 0: the surface closes without a seam.
pub proof fn lemma_sphere_seam(m: (Seq<Vertex>, Seq<u32>), object: usize, n: int)
    requires
        n > 0,
    ensures
        forall|j: int|
            #![trigger emitted_corner(m, object, sphere_faces(n), j, 0)]
            0 <= j < lat_steps(n) ==> {
                &&& emitted_corner(m, object, sphere_faces(n), (n - 1) * lat_steps(n) + j, 1)
                    == emitted_corner(m, object, sphere_faces(n), j, 0)
                &&& emitted_corner(m, object, sphere_faces(n), (n - 1) * lat_steps(n) + j, 2)
                    == emitted_corner(m, object, sphere_faces(n), j, 3)
                &&& emitted_corner(m, object, sphere_faces(n), j, 0).sample == globe(0, j)
                &&& emitted_corner(m, object, sphere_faces(n), j, 3).sample == globe(0, j + 1)
            },
{
    let l = lat_steps(n);
    let fs = sphere_faces(n);
    lemma_sphere_closes(n);
    lemma_round_counts(n);
    assert forall|q: int| 0 <= q < fs.len() implies (#[trigger] fs[q]) is Quad by {}
    assert forall|j: int| 0 <= j < l implies {
        &&& emitted_corner(m, object, fs, (n - 1) * l + j, 1) == emitted_corner(m, object, fs, j, 0)
        &&& emitted_corner(m, object, fs, (n - 1) * l + j, 2) == emitted_corner(m, object, fs, j, 3)
        &&& emitted_corner(m, object, fs, j, 0).sample == globe(0, j)
        &&& emitted_corner(m, object, fs, j, 3).sample == globe(0, j + 1)
    } by {
        let kl = (n - 1) * l + j;
        assert(kl < n * l) by (nonlinear_arith)
            requires
                j < l,
                n > 0,
                kl == (n - 1) * l + j,
        ;
        assert(0 <= kl) by (nonlinear_arith)
            requires
                j >= 0,
                n > 0,
                l >= 4,
                kl == (n - 1) * l + j,
        ;
        assert(j < n * l) by (nonlinear_arith)
            requires
                j < l,
                n > 0,
                l >= 4,
        ;
        assert(sphere_cell(n, n - 1, j) == fs[kl]);
        assert(sphere_cell(n, 0, j) == fs[j]);
        lemma_quad_vertex(m, object, fs, kl);
        lemma_quad_vertex(m, object, fs, j);
    }
}

/// Quad `j` of band `i` of a sphere with `n` longitude steps.
pub open spec fn sphere_cell(n: int, i: int, j: int) -> Face {
    sphere_faces(n)[i * lat_steps(n) + j]
}

/// A sphere with `n > 0` longitude steps is `n * l` quads, `l` the number of
/// latitude steps. Band `i` spans longitudes `i` and `(i + 1) % n`: the bands
/// share their edges, no longitude step `n` ever appears, and the last band
/// ends on the very samples the first one starts from, so the surface closes
/// without a seam.
pub proof fn lemma_sphere_closes(n: int)
    requires
        n > 0,
    ensures
        sphere_faces(n).len() == n * lat_steps(n),
        faces_vertex_count(sphere_faces(n)) == 4 * (n * lat_steps(n)),
        forall|i: int, j: int|
            0 <= i < n && 0 <= j < lat_steps(n) ==> #[trigger] sphere_cell(n, i, j) == Face::Quad(
                globe(i, j),
                globe((i + 1) % n, j),
                globe((i + 1) % n, j + 1),
                globe(i, j + 1),
            ),
        forall|j: int|
            0 <= j < lat_steps(n) ==> #[trigger] sphere_cell(n, n - 1, j) == Face::Quad(
                globe(n - 1, j),
                globe(0, j),
                globe(0, j + 1),
                globe(n - 1, j + 1),
            ),
{
    let l = lat_steps(n);
    lemma_round_counts(n);
    assert forall|i: int, j: int| 0 <= i < n && 0 <= j < l implies #[trigger] sphere_cell(n, i, j)
        == Face::Quad(globe(i, j), globe((i + 1) % n, j), globe((i + 1) % n, j + 1), globe(i, j + 1)) by {
        assert(i * l + j < n * l) by (nonlinear_arith)
            requires
                i < n,
                j < l,
                0 <= i,
                0 <= j,
        ;
        assert(0 <= i * l + j) by (nonlinear_arith)
            requires
                0 <= i,
                0 <= j,
                l >= 4,
        ;
        lemma_fundamental_div_mod_converse(i * l + j, l, i, j);
    }
    assert forall|j: int| 0 <= j < l implies #[trigger] sphere_cell(n, n - 1, j) == Face::Quad(
        globe(n - 1, j),
        globe(0, j),
        globe(0, j + 1),
        globe(n - 1, j + 1),
    ) by {
        assert(sphere_cell(n, n - 1, j) == Face::Quad(
            globe(n - 1, j),
            globe(n % n, j),
            globe(n % n, j + 1),
            globe(n - 1, j + 1),
        ));
        lemma_fundamental_div_mod_converse(n, n, 1, 0);
    }
}

/// Emitting the first `k` quads of a run of quads adds `4 * k` vertices and
/// keeps the buffer's indices in range.
proof fn lemma_quad_prefix(m: (Seq<Vertex>, Seq<u32>), object: usize, fs: Seq<Face>, k: int)
    requires
        forall|q: int| 0 <= q < fs.len() ==> (#[trigger] fs[q]) is Quad,
        indices_in_range(m),
        m.0.len() + 4 * fs.len() <= 0x1_0000_0000,
        0 <= k <= fs.len(),
    ensures
        emit_faces(m, object, fs.take(k)).0.len() == m.0.len() + 4 * k,
        indices_in_range(emit_faces(m, object, fs.take(k))),
{
    let t = fs.take(k);
    assert forall|q: int| 0 <= q < t.len() implies (#[trigger] t[q]) is Quad by {
        assert(t[q] == fs[q]);
    }
    lemma_quad_counts(t);
    lemma_emit_faces(m, object, t);
}

fn push_box(mesh: &mut MeshData, object: usize)
    requires
        old(mesh).wf(),
        old(mesh)@.0.len() + 24 <= 0x1_0000_0000,
    ensures
        final(mesh)@ == emit_faces(old(mesh)@, object, box_faces()),
{
    let fbl = Sample::Corner { x: -1, y: -1, z: 1 };
    let fbr = Sample::Corner { x: 1, y: -1, z: 1 };
    let ftr = Sample::Corner { x: 1, y: 1, z: 1 };
    let ftl = Sample::Corner { x: -1, y: 1, z: 1 };
    let bbl = Sample::Corner { x: -1, y: -1, z: -1 };
    let bbr = Sample::Corner { x: 1, y: -1, z: -1 };
    let btr = Sample::Corner { x: 1, y: 1, z: -1 };
    let btl = Sample::Corner { x: -1, y: 1, z: -1 };
    let fs = Ghost(box_faces());
    let m0 = Ghost(mesh@);
    proof {
        lemma_quad_counts(fs@);
    }
    // front, back, left, right, top, bottom
    mesh.push_quad(object, fbl, fbr, ftr, ftl);
    proof { lemma_emit_step(m0@, object, fs@, 0); assert(fs@.take(0) =~= seq![]); }
    mesh.push_quad(object, bbr, bbl, btl, btr);
    proof { lemma_emit_step(m0@, object, fs@, 1); }
    mesh.push_quad(object, bbl, fbl, ftl, btl);
    proof { lemma_emit_step(m0@, object, fs@, 2); }
    mesh.push_quad(object, fbr, bbr, btr, ftr);
    proof { lemma_emit_step(m0@, object, fs@, 3); }
    mesh.push_quad(object, ftl, ftr, btr, btl);
    proof { lemma_emit_step(m0@, object, fs@, 4); }
    mesh.push_quad(object, bbl, bbr, fbr, fbl);
    proof { lemma_emit_step(m0@, object, fs@, 5); assert(fs@.take(6) =~= fs@); }
}

fn push_plane(mesh: &mut MeshData, object: usize)
    requires
        old(mesh).wf(),
        old(mesh)@.0.len() + 8 <= 0x1_0000_0000,
    ensures
        final(mesh)@ == emit_faces(old(mesh)@, object, plane_faces()),
{
    let fl = Sample::Corner { x: -1, y: 0, z: 1 };
    let fr = Sample::Corner { x: 1, y: 0, z: 1 };
    let br = Sample::Corner { x: 1, y: 0, z: -1 };
    let bl = Sample::Corner { x: -1, y: 0, z: -1 };
    let fs = Ghost(plane_faces());
    let m0 = Ghost(mesh@);
    mesh.push_quad(object, fl, fr, br, bl);
    proof { lemma_emit_step(m0@, object, fs@, 0); assert(fs@.take(0) =~= seq![]); }
    mesh.push_quad(object, bl, br, fr, fl);
    proof { lemma_emit_step(m0@, object, fs@, 1); assert(fs@.take(2) =~= fs@); }
}

fn push_pyramid(mesh: &mut MeshData, object: usize)
    requires
        old(mesh).wf(),
        old(mesh)@.0.len() + 16 <= 0x1_0000_0000,
    ensures
        final(mesh)@ == emit_faces(old(mesh)@, object, pyramid_faces()),
{
    let tip = Sample::Corner { x: 0, y: 1, z: 0 };
    let fl = Sample::Corner { x: -1, y: -1, z: 1 };
    let fr = Sample::Corner { x: 1, y: -1, z: 1 };
    let br = Sample::Corner { x: 1, y: -1, z: -1 };
    let bl = Sample::Corner { x: -1, y: -1, z: -1 };
    let fs = Ghost(pyramid_faces());
    let m0 = Ghost(mesh@);
    // the four sides, then the base
    mesh.push_triangle(object, tip, fl, fr);
    proof { lemma_emit_step(m0@, object, fs@, 0); assert(fs@.take(0) =~= seq![]); }
    mesh.push_triangle(object, tip, fr, br);
    proof { lemma_emit_step(m0@, object, fs@, 1); }
    mesh.push_triangle(object, tip, br, bl);
    proof { lemma_emit_step(m0@, object, fs@, 2); }
    mesh.push_triangle(object, tip, bl, fl);
    proof { lemma_emit_step(m0@, object, fs@, 3); }
    mesh.push_quad(object, bl, br, fr, fl);
    proof { lemma_emit_step(m0@, object, fs@, 4); assert(fs@.take(5) =~= fs@); }
}

fn push_sphere(mesh: &mut MeshData, object: usize, n: usize)
    requires
        old(mesh).wf(),
        old(mesh)@.0.len() + faces_vertex_count(sphere_faces(n as int)) <= 0x1_0000_0000,
    ensures
        final(mesh)@ == emit_faces(old(mesh)@, object, sphere_faces(n as int)),
{
    let l = latitude_steps(n);
    let fs = Ghost(sphere_faces(n as int));
    let m0 = Ghost(mesh@);
    proof {
        lemma_round_counts(n as int);
        assert forall|q: int| 0 <= q < fs@.len() implies (#[trigger] fs@[q]) is Quad by {}
        assert(fs@.take(0) =~= seq![]);
    }
    let mut i: usize = 0;
    while i < n
        invariant
            l == lat_steps(n as int),
            fs@ == sphere_faces(n as int),
            fs@.len() == n * l,
            forall|q: int| 0 <= q < fs@.len() ==> (#[trigger] fs@[q]) is Quad,
            indices_in_range(m0@),
            m0@.0.len() + 4 * fs@.len() <= 0x1_0000_0000,
            i <= n,
            mesh@ == emit_faces(m0@, object, fs@.take(i * l)),
        decreases n - i,
    {
        let i1: usize = if i + 1 == n {
            0
        } else {
            i + 1
        };
        proof {
            if i + 1 == n {
                lemma_fundamental_div_mod_converse(n as int, n as int, 1, 0);
            } else {
                lemma_fundamental_div_mod_converse(i + 1, n as int, 0, i + 1);
            }
        }
        let mut j: usize = 0;
        while j < l
            invariant
                l == lat_steps(n as int),
                fs@ == sphere_faces(n as int),
                fs@.len() == n * l,
                forall|q: int| 0 <= q < fs@.len() ==> (#[trigger] fs@[q]) is Quad,
                indices_in_range(m0@),
                m0@.0.len() + 4 * fs@.len() <= 0x1_0000_0000,
                i < n,
                i1 == (i + 1) % (n as int),
                j <= l,
                mesh@ == emit_faces(m0@, object, fs@.take(i * l + j)),
            decreases l - j,
        {
            let k = Ghost(i * l + j);
            proof {
                assert(i * l + j < n * l) by (nonlinear_arith)
                    requires
                        i < n,
                        j < l,
                ;
                lemma_fundamental_div_mod_converse(k@, l as int, i as int, j as int);
                lemma_quad_prefix(m0@, object, fs@, k@);
                lemma_emit_step(m0@, object, fs@, k@);
            }
            mesh.push_quad(
                object,
                Sample::Globe { lon: i, lat: j },
                Sample::Globe { lon: i1, lat: j },
                Sample::Globe { lon: i1, lat: j + 1 },
                Sample::Globe { lon: i, lat: j + 1 },
            );
            j = j + 1;
        }
        proof {
            assert(i * l + l == (i + 1) * l) by (nonlinear_arith);
        }
        i = i + 1;
    }
    proof {
        assert(fs@.take(n * l) =~= fs@);
    }
}

fn push_capsule(mesh: &mut MeshData, object: usize, n: usize)
    requires
        old(mesh).wf(),
        old(mesh)@.0.len() + faces_vertex_count(capsule_faces(n as int)) <= 0x1_0000_0000,
    ensures
        final(mesh)@ == emit_faces(old(mesh)@, object, capsule_faces(n as int)),
{
    let l = latitude_steps(n);
    let c = Ghost(1 + 2 * l);
    let fs = Ghost(capsule_faces(n as int));
    let m0 = Ghost(mesh@);
    proof {
        lemma_round_counts(n as int);
        assert forall|q: int| 0 <= q < fs@.len() implies (#[trigger] fs@[q]) is Quad by {}
        assert(fs@.take(0) =~= seq![]);
    }
    let mut i: usize = 0;
    while i < n
        invariant
            l == lat_steps(n as int),
            c@ == 1 + 2 * l,
            fs@ == capsule_faces(n as int),
            fs@.len() == n * c@,
            forall|q: int| 0 <= q < fs@.len() ==> (#[trigger] fs@[q]) is Quad,
            indices_in_range(m0@),
            m0@.0.len() + 4 * fs@.len() <= 0x1_0000_0000,
            i <= n,
            mesh@ == emit_faces(m0@, object, fs@.take(i * c@)),
        decreases n - i,
    {
        let i1: usize = if i + 1 == n {
            0
        } else {
            i + 1
        };
        proof {
            if i + 1 == n {
                lemma_fundamental_div_mod_converse(n as int, n as int, 1, 0);
            } else {
                lemma_fundamental_div_mod_converse(i + 1, n as int, 0, i + 1);
            }
        }
        let k0 = Ghost(i * c@);
        proof {
            assert(i * c@ + c@ <= n * c@) by (nonlinear_arith)
                requires
                    i < n,
                    c@ >= 0,
            ;
            lemma_fundamental_div_mod_converse(k0@, c@, i as int, 0);
            lemma_quad_prefix(m0@, object, fs@, k0@);
            lemma_emit_step(m0@, object, fs@, k0@);
        }
        // the strip of the cylindrical body
        mesh.push_quad(
            object,
            Sample::Cap { lon: i, lat: 0, upper: false },
            Sample::Cap { lon: i1, lat: 0, upper: false },
            Sample::Cap { lon: i1, lat: 0, upper: true },
            Sample::Cap { lon: i, lat: 0, upper: true },
        );
        let mut j: usize = 0;
        while j < l
            invariant
                l == lat_steps(n as int),
                c@ == 1 + 2 * l,
                fs@ == capsule_faces(n as int),
                fs@.len() == n * c@,
                forall|q: int| 0 <= q < fs@.len() ==> (#[trigger] fs@[q]) is Quad,
                indices_in_range(m0@),
                m0@.0.len() + 4 * fs@.len() <= 0x1_0000_0000,
                i < n,
                i * c@ + c@ <= n * c@,
                i1 == (i + 1) % (n as int),
                j <= l,
                mesh@ == emit_faces(m0@, object, fs@.take(i * c@ + 1 + 2 * j)),
            decreases l - j,
        {
            let kt = Ghost(i * c@ + 1 + 2 * j);
            proof {
                lemma_fundamental_div_mod_converse(kt@, c@, i as int, 1 + 2 * j);
                lemma_fundamental_div_mod_converse(2 * j, 2, j as int, 0);
                lemma_quad_prefix(m0@, object, fs@, kt@);
                lemma_emit_step(m0@, object, fs@, kt@);
            }
            // a quad of the top cap
            mesh.push_quad(
                object,
                Sample::Cap { lon: i, lat: j, upper: true },
                Sample::Cap { lon: i1, lat: j, upper: true },
                Sample::Cap { lon: i1, lat: j + 1, upper: true },
                Sample::Cap { lon: i, lat: j + 1, upper: true },
            );
            let kb = Ghost(i * c@ + 2 + 2 * j);
            proof {
                lemma_fundamental_div_mod_converse(kb@, c@, i as int, 2 + 2 * j);
                lemma_fundamental_div_mod_converse(1 + 2 * j, 2, j as int, 1);
                lemma_quad_prefix(m0@, object, fs@, kb@);
                lemma_emit_step(m0@, object, fs@, kb@);
            }
            // the matching quad of the bottom cap, wound the other way
            mesh.push_quad(
                object,
                Sample::Cap { lon: i, lat: j, upper: false },
                Sample::Cap { lon: i, lat: j + 1, upper: false },
                Sample::Cap { lon: i1, lat: j + 1, upper: false },
                Sample::Cap { lon: i1, lat: j, upper: false },
            );
            j = j + 1;
        }
        proof {
            assert(i * c@ + 1 + 2 * l == (i + 1) * c@) by (nonlinear_arith)
                requires
                    c@ == 1 + 2 * l,
            ;
        }
        i = i + 1;
    }
    proof {
        assert(fs@.take(n * c@) =~= fs@);
    }
}

} // verus!
