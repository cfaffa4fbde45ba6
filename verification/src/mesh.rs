//! Triangle meshes: a list of vertices and a list of 16-bit vertex indices,
//! three per triangle.
use vstd::prelude::*;

verus! {

/// A mesh of vertices of type `V`, drawn as an indexed triangle list.
pub struct Mesh<V> {
    vertices: Vec<V>,
    indices: Vec<u16>,
}

/// The contents of a mesh.
pub struct MeshView<V> {
    pub vertices: Seq<V>,
    pub indices: Seq<u16>,
}

/// Every index of the mesh names one of its vertices.
pub open spec fn indices_in_range<V>(m: MeshView<V>) -> bool {
    forall|i: int| 0 <= i < m.indices.len() ==> (#[trigger] m.indices[i] as int) < m.vertices.len()
}

/// The corners of the quadrilaterals, four by four, in order.
pub open spec fn quad_corners<V>(quads: Seq<(V, V, V, V)>) -> Seq<V>
    decreases quads.len(),
{
    if quads.len() == 0 {
        Seq::empty()
    } else {
        let q = quads.last();
        quad_corners(quads.drop_last()) + seq![q.0, q.1, q.2, q.3]
    }
}

/// The `k`th of the quadrilaterals appended to a mesh of `first` vertices
/// finds its four new numbers within 16 bits.
pub open spec fn quad_fits(first: int, k: int) -> bool {
    (first + 4 * k) % 65536 <= 65532
}

/// The indices of `count` quadrilaterals appended, one after another, to a
/// mesh of `first` vertices: six per quadrilateral, as `Mesh::add_quad`
/// writes them.
pub open spec fn quad_indices(first: int, count: int) -> Seq<u16>
    decreases count,
{
    if count <= 0 {
        Seq::empty()
    } else {
        let base: u16 = ((first + 4 * (count - 1)) % 65536) as u16;
        quad_indices(first, count - 1) + seq![
            base,
            (base + 1) as u16,
            (base + 2) as u16,
            (base + 2) as u16,
            (base + 3) as u16,
            base,
        ]
    }
}

impl<V> View for Mesh<V> {
    type V = MeshView<V>;

    closed spec fn view(&self) -> MeshView<V> {
        MeshView { vertices: self.vertices@, indices: self.indices@ }
    }
}

impl<V> Mesh<V> {
    /// An empty mesh.
    pub fn new() -> (mesh: Self)
        ensures
            mesh@.vertices == Seq::<V>::empty(),
            mesh@.indices == Seq::<u16>::empty(),
    {
        Mesh { vertices: Vec::new(), indices: Vec::new() }
    }

    /// Appends a vertex.
    pub fn add_vertex(&mut self, vertex: V)
        ensures
            final(self)@.vertices == old(self)@.vertices.push(vertex),
            final(self)@.indices == old(self)@.indices,
    {
        self.vertices.push(vertex);
    }

    /// Appends the triangle with vertex indices `a`, `b`, `c`.
    pub fn add_triangle(&mut self, a: u16, b: u16, c: u16)
        ensures
            final(self)@.vertices == old(self)@.vertices,
            final(self)@.indices == old(self)@.indices + seq![a, b, c],
    {
        self.indices.push(a);
        self.indices.push(b);
        self.indices.push(c);
        proof {
            assert(self.indices@ =~= old(self)@.indices + seq![a, b, c]);
        }
    }

    /// The number of vertices.
    pub fn get_num_vertices(&self) -> (n: usize)
        ensures
            n == self@.vertices.len(),
    {
        self.vertices.len()
    }

    /// The vertices, in order.
    pub fn vertices(&self) -> (v: &Vec<V>)
        ensures
            v@ == self@.vertices,
    {
        &self.vertices
    }

    /// The vertex indices, three per triangle.
    pub fn indices(&self) -> (i: &Vec<u16>)
        ensures
            i@ == self@.indices,
    {
        &self.indices
    }

    /// Appends the quadrilateral with corners `a`, `b`, `c`, `d` (in winding
    /// order) as the two triangles `a b c` and `c d a`.
    ///
    /// The first new vertex is numbered by the vertex count taken modulo
    /// 2^16, as a 16-bit index; the four new numbers must fit in 16 bits.
    pub fn add_quad(&mut self, a: V, b: V, c: V, d: V)
        requires
            old(self)@.vertices.len() % 65536 <= 65532,
        ensures
            final(self)@.vertices == old(self)@.vertices + seq![a, b, c, d],
            ({
                let base: u16 = (old(self)@.vertices.len() % 65536) as u16;
                final(self)@.indices == old(self)@.indices + seq![
                    base,
                    (base + 1) as u16,
                    (base + 2) as u16,
                    (base + 2) as u16,
                    (base + 3) as u16,
                    base,
                ]
            }),
            old(self)@.vertices.len() <= 65532 && indices_in_range(old(self)@) ==> indices_in_range(
                final(self)@,
            ),
    {
        let base: u16 = (self.get_num_vertices() % 65536) as u16;
        self.add_vertex(a);
        self.add_vertex(b);
        self.add_vertex(c);
        self.add_vertex(d);
        self.add_triangle(base, base + 1, base + 2);
        self.add_triangle(base + 2, base + 3, base);
        proof {
            assert(self@.vertices =~= old(self)@.vertices + seq![a, b, c, d]);
            assert(self@.indices =~= old(self)@.indices + seq![
                base,
                (base + 1) as u16,
                (base + 2) as u16,
                (base + 2) as u16,
                (base + 3) as u16,
                base,
            ]);
            if old(self)@.vertices.len() <= 65532 && indices_in_range(old(self)@) {
                assert forall|i: int| 0 <= i < self@.indices.len() implies (
                #[trigger] self@.indices[i] as int) < self@.vertices.len() by {
                    if i < old(self)@.indices.len() {
                        assert(self@.indices[i] == old(self)@.indices[i]);
                    }
                }
            }
        }
    }

    /// Appends each quadrilateral of `quads` in turn, as `add_quad` does;
    /// every one of them must find its four new numbers within 16 bits.
    pub fn add_quads(&mut self, quads: &Vec<(V, V, V, V)>) where V: Copy
        requires
            forall|k: int|
                0 <= k < quads@.len() ==> #[trigger] quad_fits(old(self)@.vertices.len() as int, k),
        ensures
            final(self)@.vertices == old(self)@.vertices + quad_corners(quads@),
            final(self)@.indices == old(self)@.indices + quad_indices(
                old(self)@.vertices.len() as int,
                quads@.len() as int,
            ),
    {
        let ghost first: int = self@.vertices.len() as int;
        let mut i: usize = 0;
        while i < quads.len()
            invariant
                i <= quads@.len(),
                first == old(self)@.vertices.len(),
                forall|k: int| 0 <= k < quads@.len() ==> #[trigger] quad_fits(first, k),
                self@.vertices == old(self)@.vertices + quad_corners(quads@.take(i as int)),
                self@.vertices.len() == first + 4 * i,
                self@.indices == old(self)@.indices + quad_indices(first, i as int),
            decreases quads@.len() - i,
        {
            let q = quads[i];
            assert(quad_fits(first, i as int));
            self.add_quad(q.0, q.1, q.2, q.3);
            proof {
                let taken = quads@.take(i + 1);
                assert(taken.drop_last() =~= quads@.take(i as int));
                assert(taken.last() == q);
                assert(self@.vertices =~= old(self)@.vertices + quad_corners(taken));
                assert(self@.indices =~= old(self)@.indices + quad_indices(first, i + 1));
            }
            i = i + 1;
        }
        proof {
            assert(quads@.take(i as int) =~= quads@);
        }
    }
}

} // verus!
