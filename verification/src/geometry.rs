use vstd::prelude::*;

verus! {

/// Identifies the kind of geometry an instance refers to on the GPU.
#[derive(Clone, Copy, PartialEq, Eq, Structural, Debug)]
pub enum GeometryId {
    Sphere,
    Aabb,
    Quad,
    Mesh(u32),
}

impl GeometryId {
    /// The 32-bit code written to the GPU: the three primitive shapes take the
    /// three largest codes, a mesh is identified by its own index.
    pub open spec fn spec_encode(self) -> u32 {
        match self {
            GeometryId::Sphere => u32::MAX,
            GeometryId::Aabb => (u32::MAX - 1) as u32,
            GeometryId::Quad => (u32::MAX - 2) as u32,
            GeometryId::Mesh(i) => i,
        }
    }

    pub fn encode(self) -> (code: u32)
        ensures
            code == self.spec_encode(),
            self matches GeometryId::Mesh(i) ==> code == i,
            !(self is Mesh) ==> code >= u32::MAX - 2,
            forall|other: GeometryId|
                !(self is Mesh) && !(other is Mesh) && other != self ==> #[trigger] other.spec_encode() != code,
    {
        match self {
            GeometryId::Sphere => u32::MAX,
            GeometryId::Aabb => u32::MAX - 1,
            GeometryId::Quad => u32::MAX - 2,
            GeometryId::Mesh(i) => i,
        }
    }
}

impl Default for GeometryId {
    fn default() -> (r: Self)
        ensures
            r == GeometryId::Mesh(0),
    {
        GeometryId::Mesh(0)
    }
}

/// A triangle: the indices of its three vertices in the vertex list.
#[derive(Clone, Copy, Debug)]
pub struct MeshTriangle {
    pub indices: [u32; 3],
}

impl Default for MeshTriangle {
    fn default() -> (t: Self)
        ensures
            t.indices@ == seq![0u32, 0u32, 0u32],
    {
        let t = MeshTriangle { indices: [0u32, 0u32, 0u32] };
        proof {
            assert(t.indices@ =~= seq![0u32, 0u32, 0u32]);
        }
        t
    }
}

/// The triangles of every mesh of the scene, one list after the other.
pub struct MeshTriangles(pub Vec<MeshTriangle>);

/// `t` with `offset` added to each of its vertex indices.
pub open spec fn offset_triangle(t: MeshTriangle, offset: int) -> Seq<u32> {
    Seq::new(3, |k: int| (t.indices@[k] + offset) as u32)
}

/// Every vertex index of `triangles` plus `offset` still fits in 32 bits.
pub open spec fn offsets_fit(triangles: Seq<MeshTriangle>, offset: int) -> bool {
    forall|i: int, k: int|
        0 <= i < triangles.len() && 0 <= k < 3 ==> #[trigger] triangles[i].indices@[k] + offset
            <= u32::MAX
}

/// Appends `triangles` to `out` with every vertex index moved by `vertex_offset`,
/// the place where their vertices were appended in the combined vertex list.
pub fn append_offset_triangles(out: &mut Vec<MeshTriangle>, triangles: &[MeshTriangle], vertex_offset: u32)
    requires
        offsets_fit(triangles@, vertex_offset as int),
    ensures
        final(out)@.len() == old(out)@.len() + triangles@.len(),
        forall|i: int| 0 <= i < old(out)@.len() ==> #[trigger] final(out)@[i] == old(out)@[i],
        forall|i: int|
            0 <= i < triangles@.len() ==> #[trigger] final(out)@[old(out)@.len() + i].indices@
                == offset_triangle(triangles@[i], vertex_offset as int),
{
    let ghost start = out@.len();
    let mut i: usize = 0;
    while i < triangles.len()
        invariant
            i <= triangles@.len(),
            offsets_fit(triangles@, vertex_offset as int),
            out@.len() == start + i,
            start == old(out)@.len(),
            forall|j: int| 0 <= j < start ==> #[trigger] out@[j] == old(out)@[j],
            forall|j: int|
                0 <= j < i ==> #[trigger] out@[start + j].indices@ == offset_triangle(
                    triangles@[j],
                    vertex_offset as int,
                ),
        decreases triangles@.len() - i,
    {
        let t = triangles[i];
        proof {
            assert(triangles@[i as int].indices@[0] + vertex_offset <= u32::MAX);
            assert(triangles@[i as int].indices@[1] + vertex_offset <= u32::MAX);
            assert(triangles@[i as int].indices@[2] + vertex_offset <= u32::MAX);
        }
        let moved = MeshTriangle {
            indices: [t.indices[0] + vertex_offset, t.indices[1] + vertex_offset, t.indices[2] + vertex_offset],
        };
        proof {
            assert(moved.indices@ =~= offset_triangle(triangles@[i as int], vertex_offset as int));
        }
        out.push(moved);
        i = i + 1;
    }
}

/// Every vertex index of `triangles` is below `vertex_count`.
pub open spec fn indices_below(triangles: Seq<MeshTriangle>, vertex_count: int) -> bool {
    forall|i: int, k: int|
        0 <= i < triangles.len() && 0 <= k < 3 ==> #[trigger] triangles[i].indices@[k] < vertex_count
}

/// Offsetting the triangles of a mesh whose indices are below its vertex count
/// by the number of vertices before it keeps them inside the range of the
/// mesh's own vertices in the combined list.
pub proof fn lemma_offset_stays_in_mesh(triangles: Seq<MeshTriangle>, vertex_count: int, offset: int, i: int, k: int)
    requires
        indices_below(triangles, vertex_count),
        0 <= offset,
        offset + vertex_count <= u32::MAX + 1,
        0 <= i < triangles.len(),
        0 <= k < 3,
    ensures
        offset <= offset_triangle(triangles[i], offset)[k] < offset + vertex_count,
{
    assert(triangles[i].indices@[k] < vertex_count);
}

/// Where a mesh's data were appended in the combined scene lists.
#[derive(Clone, Copy, PartialEq, Eq, Structural, Debug)]
pub struct MeshSlots {
    pub vertex_offset: u32,
    pub triangle_offset: u32,
    pub triangle_count: u32,
    pub blas_root: u32,
}

/// Appends a mesh's vertices, triangles and hierarchy nodes to the combined
/// lists and returns where they start, taken from the list lengths before.
pub fn serialize_mesh<V: Copy, N: Copy>(
    mesh_vertices: &mut Vec<V>,
    mesh_triangles: &mut Vec<MeshTriangle>,
    blas_nodes: &mut Vec<N>,
    vertices: &[V],
    triangles: &[MeshTriangle],
    nodes: &[N],
) -> (slots: MeshSlots)
    requires
        old(mesh_vertices)@.len() + vertices@.len() <= usize::MAX,
        old(mesh_triangles)@.len() + triangles@.len() <= usize::MAX,
        old(blas_nodes)@.len() + nodes@.len() <= usize::MAX,
    ensures
        slots.vertex_offset == old(mesh_vertices)@.len() as u32,
        slots.triangle_offset == old(mesh_triangles)@.len() as u32,
        slots.triangle_count == triangles@.len() as u32,
        slots.blas_root == old(blas_nodes)@.len() as u32,
        final(mesh_vertices)@ == old(mesh_vertices)@ + vertices@,
        final(mesh_triangles)@ == old(mesh_triangles)@ + triangles@,
        final(blas_nodes)@ == old(blas_nodes)@ + nodes@,
{
    let slots = MeshSlots {
        vertex_offset: mesh_vertices.len() as u32,
        triangle_offset: mesh_triangles.len() as u32,
        triangle_count: triangles.len() as u32,
        blas_root: blas_nodes.len() as u32,
    };
    append_all(mesh_vertices, vertices);
    append_all(mesh_triangles, triangles);
    append_all(blas_nodes, nodes);
    slots
}

fn append_all<T: Copy>(out: &mut Vec<T>, items: &[T])
    requires
        old(out)@.len() + items@.len() <= usize::MAX,
    ensures
        final(out)@ == old(out)@ + items@,
{
    let mut i: usize = 0;
    while i < items.len()
        invariant
            i <= items@.len(),
            out@ == old(out)@ + items@.subrange(0, i as int),
        decreases items@.len() - i,
    {
        proof {
            assert(old(out)@ + items@.subrange(0, i + 1) =~= (old(out)@ + items@.subrange(0, i as int)).push(items@[i as int]));
        }
        out.push(items[i]);
        i = i + 1;
    }
    proof {
        assert(items@.subrange(0, items@.len() as int) =~= items@);
    }
}

/// Number of vertices contributed by the first `n` instances.
pub open spec fn instance_vertex_offset(instance_meshes: Seq<usize>, vertex_counts: Seq<usize>, n: int) -> int
    decreases n,
{
    if n <= 0 {
        0
    } else {
        instance_vertex_offset(instance_meshes, vertex_counts, n - 1) + vertex_counts[instance_meshes[n - 1] as int]
    }
}

/// The triangles of the first `n` instances, each instance's mesh triangles
/// moved past the vertices of the instances before it.
pub open spec fn flattened_triangles(
    instance_meshes: Seq<usize>,
    mesh_triangles: Seq<Seq<MeshTriangle>>,
    vertex_counts: Seq<usize>,
    n: int,
) -> Seq<Seq<u32>>
    decreases n,
{
    if n <= 0 {
        Seq::empty()
    } else {
        let offset = instance_vertex_offset(instance_meshes, vertex_counts, n - 1);
        flattened_triangles(instance_meshes, mesh_triangles, vertex_counts, n - 1) + mesh_triangles[instance_meshes[n
            - 1] as int].map_values(|t: MeshTriangle| offset_triangle(t, offset))
    }
}

/// The triangle lists of a scene flattened into one mesh: instance by
/// instance, the triangles of the instance's mesh with their vertex indices
/// moved past the vertices of the instances before it (whose vertices are
/// appended in the same order).
pub fn flatten_instance_triangles(
    instance_meshes: &[usize],
    mesh_triangles: &Vec<Vec<MeshTriangle>>,
    vertex_counts: &[usize],
) -> (out: Vec<MeshTriangle>)
    requires
        vertex_counts@.len() == mesh_triangles@.len(),
        forall|i: int| 0 <= i < instance_meshes@.len() ==> #[trigger] instance_meshes@[i] < mesh_triangles@.len(),
        forall|i: int|
            0 <= i < instance_meshes@.len() ==> offsets_fit(
                #[trigger] mesh_triangles@[instance_meshes@[i] as int]@,
                instance_vertex_offset(instance_meshes@, vertex_counts@, i),
            ),
        instance_vertex_offset(instance_meshes@, vertex_counts@, instance_meshes@.len() as int) <= u32::MAX,
        flattened_triangles(
            instance_meshes@,
            mesh_triangles@.map_values(|v: Vec<MeshTriangle>| v@),
            vertex_counts@,
            instance_meshes@.len() as int,
        ).len() <= usize::MAX,
    ensures
        out@.map_values(|t: MeshTriangle| t.indices@) == flattened_triangles(
            instance_meshes@,
            mesh_triangles@.map_values(|v: Vec<MeshTriangle>| v@),
            vertex_counts@,
            instance_meshes@.len() as int,
        ),
{
    let ghost tris = mesh_triangles@.map_values(|v: Vec<MeshTriangle>| v@);
    let mut out: Vec<MeshTriangle> = Vec::new();
    let mut offset: usize = 0;
    let mut i: usize = 0;
    proof {
        lemma_offsets_monotone(instance_meshes@, vertex_counts@, instance_meshes@.len() as int);
        assert(out@.map_values(|t: MeshTriangle| t.indices@) =~= Seq::<Seq<u32>>::empty());
    }
    while i < instance_meshes.len()
        invariant
            i <= instance_meshes@.len(),
            vertex_counts@.len() == mesh_triangles@.len(),
            tris == mesh_triangles@.map_values(|v: Vec<MeshTriangle>| v@),
            forall|j: int| 0 <= j < instance_meshes@.len() ==> #[trigger] instance_meshes@[j] < mesh_triangles@.len(),
            forall|j: int|
                0 <= j < instance_meshes@.len() ==> offsets_fit(
                    #[trigger] mesh_triangles@[instance_meshes@[j] as int]@,
                    instance_vertex_offset(instance_meshes@, vertex_counts@, j),
                ),
            forall|j: int|
                0 <= j <= instance_meshes@.len() ==> 0 <= #[trigger] instance_vertex_offset(
                    instance_meshes@,
                    vertex_counts@,
                    j,
                ) <= instance_vertex_offset(instance_meshes@, vertex_counts@, instance_meshes@.len() as int),
            instance_vertex_offset(instance_meshes@, vertex_counts@, instance_meshes@.len() as int) <= u32::MAX,
            offset == instance_vertex_offset(instance_meshes@, vertex_counts@, i as int),
            flattened_triangles(instance_meshes@, tris, vertex_counts@, instance_meshes@.len() as int).len()
                <= usize::MAX,
            out@.map_values(|t: MeshTriangle| t.indices@) == flattened_triangles(
                instance_meshes@,
                tris,
                vertex_counts@,
                i as int,
            ),
        decreases instance_meshes@.len() - i,
    {
        let mesh = instance_meshes[i];
        let ghost before = out@;
        let ghost add = tris[mesh as int].map_values(|t: MeshTriangle| offset_triangle(t, offset as int));
        proof {
            assert(tris[mesh as int] == mesh_triangles@[mesh as int]@);
            lemma_flattened_prefix_len(instance_meshes@, tris, vertex_counts@, i + 1, instance_meshes@.len() as int);
        }
        append_offset_triangles(&mut out, mesh_triangles[mesh].as_slice(), offset as u32);
        proof {
            let lhs = out@.map_values(|t: MeshTriangle| t.indices@);
            let rhs = before.map_values(|t: MeshTriangle| t.indices@) + add;
            assert(lhs.len() == rhs.len());
            assert forall|k: int| 0 <= k < lhs.len() implies lhs[k] == rhs[k] by {
                if k < before.len() {
                    assert(out@[k] == before[k]);
                } else {
                    let m = k - before.len();
                    assert(out@[before.len() + m].indices@ == offset_triangle(
                        mesh_triangles@[mesh as int]@[m],
                        offset as int,
                    ));
                }
            }
            assert(lhs =~= rhs);
            assert(instance_vertex_offset(instance_meshes@, vertex_counts@, i + 1) == offset
                + vertex_counts@[mesh as int]);
        }
        offset = offset + vertex_counts[mesh];
        i = i + 1;
    }
    out
}

proof fn lemma_offsets_monotone(instance_meshes: Seq<usize>, vertex_counts: Seq<usize>, n: int)
    requires
        0 <= n <= instance_meshes.len(),
        forall|i: int| 0 <= i < instance_meshes.len() ==> #[trigger] instance_meshes[i] < vertex_counts.len(),
    ensures
        forall|j: int|
            0 <= j <= n ==> 0 <= #[trigger] instance_vertex_offset(instance_meshes, vertex_counts, j)
                <= instance_vertex_offset(instance_meshes, vertex_counts, n),
    decreases n,
{
    if n > 0 {
        lemma_offsets_monotone(instance_meshes, vertex_counts, n - 1);
        assert(instance_meshes[n - 1] < vertex_counts.len());
        assert(vertex_counts[instance_meshes[n - 1] as int] >= 0);
        assert forall|j: int| 0 <= j <= n implies 0 <= #[trigger] instance_vertex_offset(instance_meshes, vertex_counts, j)
            <= instance_vertex_offset(instance_meshes, vertex_counts, n) by {
            if j < n {
                assert(instance_vertex_offset(instance_meshes, vertex_counts, j) <= instance_vertex_offset(
                    instance_meshes,
                    vertex_counts,
                    n - 1,
                ));
            }
        }
    }
}

proof fn lemma_flattened_prefix_len(
    instance_meshes: Seq<usize>,
    mesh_triangles: Seq<Seq<MeshTriangle>>,
    vertex_counts: Seq<usize>,
    m: int,
    n: int,
)
    requires
        0 <= m <= n,
    ensures
        flattened_triangles(instance_meshes, mesh_triangles, vertex_counts, m).len()
            <= flattened_triangles(instance_meshes, mesh_triangles, vertex_counts, n).len(),
    decreases n,
{
    if m < n {
        lemma_flattened_prefix_len(instance_meshes, mesh_triangles, vertex_counts, m, n - 1);
    }
}

/// Groups an index list into triangles, three consecutive indices each; an
/// incomplete group at the end is dropped.
pub fn triangles_from_indices(indices: &[u32]) -> (r: Vec<MeshTriangle>)
    ensures
        r@.len() == indices@.len() / 3,
        forall|i: int|
            0 <= i < r@.len() ==> #[trigger] r@[i].indices@ == indices@.subrange(3 * i, 3 * i + 3),
{
    let mut r: Vec<MeshTriangle> = Vec::new();
    let count = indices.len() / 3;
    let mut i: usize = 0;
    while i < count
        invariant
            count == indices.len() / 3,
            i <= count,
            r@.len() == i,
            forall|j: int|
                0 <= j < i ==> #[trigger] r@[j].indices@ == indices@.subrange(3 * j, 3 * j + 3),
        decreases count - i,
    {
        assert(3 * i + 3 <= indices.len()) by (nonlinear_arith)
            requires
                i < count,
                count == indices.len() / 3,
        ;
        let base = 3 * i;
        let t = MeshTriangle { indices: [indices[base], indices[base + 1], indices[base + 2]] };
        proof {
            assert(t.indices@ =~= indices@.subrange(3 * i, 3 * i + 3));
        }
        r.push(t);
        i = i + 1;
    }
    r
}

/// No key occurs twice in `keys`.
pub open spec fn keys_distinct(keys: Seq<(usize, usize)>) -> bool {
    forall|a: int, b: int| 0 <= a < b < keys.len() ==> keys[a] != keys[b]
}

/// Position of `key` among `keys`.
fn position_of(keys: &[(usize, usize)], key: (usize, usize)) -> (p: usize)
    requires
        keys@.contains(key),
    ensures
        p < keys@.len(),
        keys@[p as int] == key,
        forall|j: int| 0 <= j < p ==> keys@[j] != key,
{
    let mut p: usize = 0;
    while p < keys.len()
        invariant
            p <= keys@.len(),
            keys@.contains(key),
            forall|j: int| 0 <= j < p ==> keys@[j] != key,
        decreases keys@.len() - p,
    {
        if keys[p].0 == key.0 && keys[p].1 == key.1 {
            return p;
        }
        p = p + 1;
    }
    proof {
        let w = choose|j: int| 0 <= j < keys@.len() && keys@[j] == key;
        assert(keys@[w] == key);
    }
    p
}

/// Meshes are collected under sparse keys (mesh, primitive) and stored
/// densely in the order `mesh_keys` gives; instance `i`, which refers to key
/// `instance_keys[i]`, gets the dense index of that key.
pub fn pack_instance_meshes(mesh_keys: &[(usize, usize)], instance_keys: &[(usize, usize)]) -> (r: Vec<usize>)
    requires
        keys_distinct(mesh_keys@),
        forall|i: int| 0 <= i < instance_keys@.len() ==> mesh_keys@.contains(#[trigger] instance_keys@[i]),
    ensures
        r@.len() == instance_keys@.len(),
        forall|i: int|
            0 <= i < r@.len() ==> #[trigger] r@[i] < mesh_keys@.len() && mesh_keys@[r@[i] as int]
                == instance_keys@[i],
{
    let mut r: Vec<usize> = Vec::new();
    let mut i: usize = 0;
    while i < instance_keys.len()
        invariant
            i <= instance_keys@.len(),
            r@.len() == i,
            forall|k: int| 0 <= k < instance_keys@.len() ==> mesh_keys@.contains(#[trigger] instance_keys@[k]),
            forall|j: int|
                0 <= j < i ==> #[trigger] r@[j] < mesh_keys@.len() && mesh_keys@[r@[j] as int]
                    == instance_keys@[j],
        decreases instance_keys@.len() - i,
    {
        let p = position_of(mesh_keys, instance_keys[i]);
        r.push(p);
        i = i + 1;
    }
    r
}

/// Dense indices are unique: the key an index was given is the only key at
/// that position, so two instances share a mesh exactly when their keys are
/// equal.
pub proof fn lemma_packed_indices_agree(mesh_keys: Seq<(usize, usize)>, a: int, b: int, ka: (usize, usize), kb: (usize, usize))
    requires
        keys_distinct(mesh_keys),
        0 <= a < mesh_keys.len(),
        0 <= b < mesh_keys.len(),
        mesh_keys[a] == ka,
        mesh_keys[b] == kb,
    ensures
        (a == b) <==> (ka == kb),
{
    if a != b && ka == kb {
        if a < b {
            assert(mesh_keys[a] != mesh_keys[b]);
        } else {
            assert(mesh_keys[b] != mesh_keys[a]);
        }
    }
}

} // verus!
