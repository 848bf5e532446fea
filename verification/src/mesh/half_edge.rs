use vstd::prelude::*;

use crate::geometry::Vector3;
use crate::mesh::polygon_soup::PolygonSoup;

verus! {

/// A mesh vertex: its position and one half-edge originating at it.
#[derive(Debug, Clone, Copy, PartialEq, Eq, Structural)]
pub struct HeVertex {
    pub origin: Vector3,
    pub half_edge: usize,
}

impl HeVertex {
    /// Get the origin.
    pub fn origin(&self) -> (r: Vector3)
        ensures
            r == self.origin,
    {
        self.origin
    }

    /// Get the half edge originating at the vertex.
    pub fn half_edge(&self) -> (r: usize)
        ensures
            r == self.half_edge,
    {
        self.half_edge
    }
}

/// A mesh face: the first half-edge of its boundary cycle and an optional
/// patch membership.
#[derive(Debug, Clone, Copy, PartialEq, Eq, Structural)]
pub struct HeFace {
    pub half_edge: usize,
    pub patch: Option<usize>,
}

impl HeFace {
    /// Get the starting half edge handle.
    pub fn half_edge(&self) -> (r: usize)
        ensures
            r == self.half_edge,
    {
        self.half_edge
    }

    /// Get the patch handle.
    pub fn patch(&self) -> (r: Option<usize>)
        ensures
            r == self.patch,
    {
        self.patch
    }
}

/// A half-edge: directed from `origin` along the boundary of `face`; `twin`
/// is absent exactly on a mesh boundary.
#[derive(Debug, Clone, Copy, PartialEq, Eq, Structural)]
pub struct HeHalfEdge {
    pub origin: usize,
    pub face: usize,
    pub prev: usize,
    pub next: usize,
    pub twin: Option<usize>,
}

impl HeHalfEdge {
    /// Get the origin vertex handle.
    pub fn origin(&self) -> (r: usize)
        ensures
            r == self.origin,
    {
        self.origin
    }

    /// Get the incident face handle.
    pub fn face(&self) -> (r: usize)
        ensures
            r == self.face,
    {
        self.face
    }

    /// Get the previous half edge handle.
    pub fn prev(&self) -> (r: usize)
        ensures
            r == self.prev,
    {
        self.prev
    }

    /// Get the next half edge handle.
    pub fn next(&self) -> (r: usize)
        ensures
            r == self.next,
    {
        self.next
    }

    /// Get the twin half edge handle (if it exists).
    pub fn twin(&self) -> (r: Option<usize>)
        ensures
            r == self.twin,
    {
        self.twin
    }

    /// Check if the half edge is on a boundary.
    pub fn is_boundary(&self) -> (r: bool)
        ensures
            r == (self.twin is None),
    {
        self.twin.is_none()
    }
}

/// A named face group.
#[derive(Debug, Clone)]
pub struct HePatch {
    pub name: Vec<u8>,
}

impl HePatch {
    /// Get a borrowed reference to the name.
    pub fn name(&self) -> (r: &Vec<u8>)
        ensures
            r@ == self.name@,
    {
        &self.name
    }
}

/// The recoverable failure of mesh construction.
#[derive(Debug, Clone, Copy, PartialEq, Eq, Structural)]
pub enum HeMeshError {
    /// Some undirected edge is referenced by three or more half-edges.
    NonManifold,
}

/// Where face `f`'s half-edge block begins.
pub open spec fn hb_start(faces: Seq<HeFace>, f: int) -> int {
    faces[f].half_edge as int
}

/// Where face `f`'s half-edge block ends.
pub open spec fn hb_end(faces: Seq<HeFace>, nh: int, f: int) -> int {
    if f + 1 < faces.len() {
        faces[f + 1].half_edge as int
    } else {
        nh
    }
}

/// Face `f`'s half-edge block has at least three entries and ends within
/// the table.
pub open spec fn block_ok_at(faces: Seq<HeFace>, nh: int, f: int) -> bool {
    hb_start(faces, f) + 3 <= hb_end(faces, nh, f) <= nh
}

/// The half-edges of the faces are stored in consecutive blocks of at least
/// three, the first block starting at zero.
pub open spec fn blocks_ok(faces: Seq<HeFace>, nh: int) -> bool {
    &&& (faces.len() == 0 ==> nh == 0)
    &&& (faces.len() > 0 ==> faces[0].half_edge == 0)
    &&& forall|f: int| 0 <= f < faces.len() ==> #[trigger] block_ok_at(faces, nh, f)
}

/// The successor of `h` within face `f`'s block, walking the block upward
/// and wrapping at its end.
pub open spec fn block_fwd(faces: Seq<HeFace>, nh: int, f: int, h: int) -> int {
    if h + 1 < hb_end(faces, nh, f) {
        h + 1
    } else {
        hb_start(faces, f)
    }
}

/// The predecessor of `h` within face `f`'s block, walking the block
/// downward and wrapping at its start.
pub open spec fn block_bwd(faces: Seq<HeFace>, nh: int, f: int, h: int) -> int {
    if h > hb_start(faces, f) {
        h - 1
    } else {
        hb_end(faces, nh, f) - 1
    }
}

/// Face `f`'s cycle runs upward through its block.
pub open spec fn face_forward(faces: Seq<HeFace>, hes: Seq<HeHalfEdge>, f: int) -> bool {
    forall|h: int|
        hb_start(faces, f) <= h < hb_end(faces, hes.len() as int, f) ==> (#[trigger] hes[h]).next
            == block_fwd(faces, hes.len() as int, f, h) && hes[h].prev == block_bwd(
            faces,
            hes.len() as int,
            f,
            h,
        )
}

/// Face `f`'s cycle runs downward through its block.
pub open spec fn face_backward(faces: Seq<HeFace>, hes: Seq<HeHalfEdge>, f: int) -> bool {
    forall|h: int|
        hb_start(faces, f) <= h < hb_end(faces, hes.len() as int, f) ==> (#[trigger] hes[h]).next
            == block_bwd(faces, hes.len() as int, f, h) && hes[h].prev == block_fwd(
            faces,
            hes.len() as int,
            f,
            h,
        )
}

/// The handle reached from face `f`'s stored half-edge after `x` steps of
/// `next`.
pub open spec fn cycle_handle(faces: Seq<HeFace>, hes: Seq<HeHalfEdge>, f: int, x: int) -> int
    decreases x,
{
    if x <= 0 {
        hb_start(faces, f)
    } else {
        hes[cycle_handle(faces, hes, f, x - 1)].next as int
    }
}

/// The unordered vertex pair of the edge that half-edge `h` runs along.
pub open spec fn uedge(hes: Seq<HeHalfEdge>, h: int) -> (usize, usize) {
    let a = hes[h].origin;
    let b = hes[hes[h].next as int].origin;
    if a <= b {
        (a, b)
    } else {
        (b, a)
    }
}

/// How many half-edges among the first `upto` run along the undirected
/// edge `e`.
pub open spec fn uedge_count(hes: Seq<HeHalfEdge>, e: (usize, usize), upto: int) -> nat
    decreases upto,
{
    if upto <= 0 {
        0
    } else {
        uedge_count(hes, e, upto - 1) + if uedge(hes, upto - 1) == e {
            1nat
        } else {
            0nat
        }
    }
}

/// Twins are symmetric, distinct and run along the same undirected edge.
pub open spec fn twins_ok(hes: Seq<HeHalfEdge>) -> bool {
    forall|h: int|
        0 <= h < hes.len() && (#[trigger] hes[h]).twin is Some ==> hes[h].twin->0 < hes.len()
            && hes[h].twin->0 != h && hes[hes[h].twin->0 as int].twin == Some(h as usize) && uedge(
            hes,
            hes[h].twin->0 as int,
        ) == uedge(hes, h)
}

/// The unordered vertex pair of the `x`-th edge of a face ring.
pub open spec fn ring_edge(ring: Seq<usize>, x: int) -> (usize, usize) {
    let a = ring[x];
    let b = ring[if x + 1 < ring.len() {
        x + 1
    } else {
        0
    }];
    if a <= b {
        (a, b)
    } else {
        (b, a)
    }
}

/// How many of the first `upto` edges of a face ring run along `e`.
pub open spec fn ring_edge_count(ring: Seq<usize>, e: (usize, usize), upto: int) -> nat
    decreases upto,
{
    if upto <= 0 {
        0
    } else {
        ring_edge_count(ring, e, upto - 1) + if ring_edge(ring, upto - 1) == e {
            1nat
        } else {
            0nat
        }
    }
}

/// How many edges of the first `upto` faces of a soup run along `e`.
pub open spec fn soup_edge_count(soup: PolygonSoup, e: (usize, usize), upto: int) -> nat
    decreases upto,
{
    if upto <= 0 {
        0
    } else {
        soup_edge_count(soup, e, upto - 1) + ring_edge_count(
            soup.spec_face(upto - 1),
            e,
            soup.spec_face(upto - 1).len() as int,
        )
    }
}

/// The total number of face-ring slots of the first `upto` faces of a soup.
pub open spec fn soup_size(soup: PolygonSoup, upto: int) -> nat
    decreases upto,
{
    if upto <= 0 {
        0
    } else {
        soup_size(soup, upto - 1) + soup.spec_face(upto - 1).len()
    }
}

/// Edge counts over a common prefix agree when the half-edges agree there
/// and their successors stay inside it.
proof fn lemma_uedge_count_prefix(
    h1: Seq<HeHalfEdge>,
    h2: Seq<HeHalfEdge>,
    e: (usize, usize),
    bound: int,
    upto: int,
)
    requires
        0 <= upto <= bound <= h1.len(),
        bound <= h2.len(),
        forall|h: int| 0 <= h < bound ==> #[trigger] h2[h] == h1[h],
        forall|h: int| 0 <= h < bound ==> (#[trigger] h1[h]).next < bound,
    ensures
        uedge_count(h2, e, upto) == uedge_count(h1, e, upto),
    decreases upto,
{
    if upto > 0 {
        lemma_uedge_count_prefix(h1, h2, e, bound, upto - 1);
        assert(uedge(h2, upto - 1) == uedge(h1, upto - 1)) by {
            let nx = h1[upto - 1].next as int;
            assert(h2[nx] == h1[nx]);
        }
    }
}

/// Counting the half-edges of one appended block along `e` adds exactly the
/// block's ring-edge count.
proof fn lemma_block_edge_count(
    hes: Seq<HeHalfEdge>,
    ring: Seq<usize>,
    base: int,
    e: (usize, usize),
    x: int,
)
    requires
        0 <= base,
        base + ring.len() <= hes.len(),
        0 <= x <= ring.len(),
        forall|y: int| 0 <= y < ring.len() ==> #[trigger] uedge(hes, base + y) == ring_edge(ring, y),
    ensures
        uedge_count(hes, e, base + x) == uedge_count(hes, e, base) + ring_edge_count(ring, e, x),
    decreases x,
{
    if x > 0 {
        lemma_block_edge_count(hes, ring, base, e, x - 1);
        assert(uedge(hes, base + (x - 1)) == ring_edge(ring, x - 1));
    }
}


/// Whether a patch-name list holds `name`.
pub open spec fn contains_name(ps: Seq<Seq<u8>>, name: Seq<u8>) -> bool {
    exists|i: int| 0 <= i < ps.len() && ps[i] == name
}

/// The patch list after merging `b`'s first `upto` names into `a`: a name
/// already present is not appended again.
pub open spec fn merged_patches(a: Seq<Seq<u8>>, b: Seq<Seq<u8>>, upto: int) -> Seq<Seq<u8>>
    decreases upto,
{
    if upto <= 0 {
        a
    } else {
        let m = merged_patches(a, b, upto - 1);
        if contains_name(m, b[upto - 1]) {
            m
        } else {
            m.push(b[upto - 1])
        }
    }
}

/// The position of the last patch with the given name, or `-1`.
pub open spec fn last_index_of(ps: Seq<Seq<u8>>, name: Seq<u8>) -> int
    decreases ps.len(),
{
    if ps.len() == 0 {
        -1
    } else if ps[ps.len() - 1] == name {
        ps.len() - 1
    } else {
        last_index_of(ps.drop_last(), name)
    }
}

/// Merging never removes a name.
proof fn lemma_merged_keeps(a: Seq<Seq<u8>>, b: Seq<Seq<u8>>, upto: int, name: Seq<u8>)
    requires
        0 <= upto,
        contains_name(merged_patches(a, b, upto), name) || (exists|q: int|
            0 <= q < upto && b[q] == name),
    ensures
        contains_name(merged_patches(a, b, upto), name),
    decreases upto,
{
    if !contains_name(merged_patches(a, b, upto), name) {
        let q = choose|q: int| 0 <= q < upto && b[q] == name;
        let m = merged_patches(a, b, upto - 1);
        if contains_name(m, name) {
            let i = choose|i: int| 0 <= i < m.len() && m[i] == name;
            assert(merged_patches(a, b, upto)[i] == name);
        } else if q == upto - 1 {
            assert(merged_patches(a, b, upto) == m.push(name));
            assert(merged_patches(a, b, upto)[m.len() as int] == name);
        } else {
            lemma_merged_keeps(a, b, upto - 1, name);
        }
    }
}

/// A positive last index names the name.
proof fn lemma_last_index_of(ps: Seq<Seq<u8>>, name: Seq<u8>)
    requires
        contains_name(ps, name),
    ensures
        0 <= last_index_of(ps, name) < ps.len(),
        ps[last_index_of(ps, name)] == name,
    decreases ps.len(),
{
    if ps.len() > 0 && ps[ps.len() - 1] != name {
        let i = choose|i: int| 0 <= i < ps.len() && ps[i] == name;
        assert(ps.drop_last()[i] == name);
        lemma_last_index_of(ps.drop_last(), name);
        assert(ps[last_index_of(ps.drop_last(), name)] == ps.drop_last()[last_index_of(
            ps.drop_last(),
            name,
        )]);
    }
}

/// A name's last position is the match that no later position repeats.
proof fn lemma_last_index_at(ps: Seq<Seq<u8>>, name: Seq<u8>, idx: int)
    requires
        0 <= idx < ps.len(),
        ps[idx] == name,
        forall|k: int| idx < k < ps.len() ==> ps[k] != name,
    ensures
        last_index_of(ps, name) == idx,
    decreases ps.len(),
{
    if ps.len() - 1 != idx {
        assert(ps[ps.len() - 1] != name);
        assert(ps.drop_last()[idx] == name);
        assert forall|k: int| idx < k < ps.drop_last().len() implies ps.drop_last()[k] != name by {
            assert(ps.drop_last()[k] == ps[k]);
        }
        lemma_last_index_at(ps.drop_last(), name, idx);
    }
}

/// Borrow one slot of a remap table mutably.
fn vslot_mut(table: &mut Vec<Option<usize>>, i: usize) -> (r: &mut Option<usize>)
    requires
        i < old(table)@.len(),
    ensures
        *r == old(table)@[i as int],
        final(table)@ == old(table)@.update(i as int, *final(r)),
{
    &mut table[i]
}

/// Compare two byte strings.
fn bytes_eq(a: &Vec<u8>, b: &Vec<u8>) -> (r: bool)
    ensures
        r == (a@ == b@),
{
    if a.len() != b.len() {
        return false;
    }
    let mut i: usize = 0;
    while i < a.len()
        invariant
            i <= a@.len(),
            a@.len() == b@.len(),
            forall|k: int| 0 <= k < i ==> a@[k] == b@[k],
        decreases a@.len() - i,
    {
        if a[i] != b[i] {
            return false;
        }
        i += 1;
    }
    proof {
        assert(a@ =~= b@);
    }
    true
}

/// An index-based half-edge mesh: four parallel arrays of vertices, faces,
/// half-edges and patches, linked by `usize` handles.
#[derive(Debug, Clone)]
pub struct HeMesh {
    vertices: Vec<HeVertex>,
    faces: Vec<HeFace>,
    half_edges: Vec<HeHalfEdge>,
    patches: Vec<HePatch>,
}

impl HeMesh {
    pub closed spec fn spec_vertices(self) -> Seq<HeVertex> {
        self.vertices@
    }

    pub closed spec fn spec_faces(self) -> Seq<HeFace> {
        self.faces@
    }

    pub closed spec fn spec_half_edges(self) -> Seq<HeHalfEdge> {
        self.half_edges@
    }

    pub closed spec fn spec_patches(self) -> Seq<Seq<u8>> {
        self.patches@.map_values(|p: HePatch| p.name@)
    }

    /// The structural invariant: half-edges sit in consecutive per-face
    /// blocks whose cycles run through `next`/`prev` in one direction or the
    /// other; every handle is in range; a half-edge's stored face is the
    /// face whose block holds it; twins are symmetric and run along the same
    /// undirected edge.
    pub open spec fn wf(self) -> bool {
        let faces = self.spec_faces();
        let hes = self.spec_half_edges();
        let nh = hes.len() as int;
        &&& blocks_ok(faces, nh)
        &&& forall|f: int|
            0 <= f < faces.len() ==> #[trigger] face_forward(faces, hes, f) || face_backward(
                faces,
                hes,
                f,
            )
        &&& forall|h: int|
            0 <= h < nh ==> (#[trigger] hes[h]).face < faces.len() && hb_start(
                faces,
                hes[h].face as int,
            ) <= h < hb_end(faces, nh, hes[h].face as int)
        &&& forall|h: int| 0 <= h < nh ==> (#[trigger] hes[h]).origin < self.spec_vertices().len()
        &&& forall|f: int|
            0 <= f < faces.len() && (#[trigger] faces[f].patch) is Some ==> faces[f].patch->0
                < self.spec_patches().len()
        &&& twins_ok(hes)
    }

    /// Every undirected edge is run along by at most two half-edges.
    pub open spec fn manifold(self) -> bool {
        forall|e: (usize, usize)|
            uedge_count(self.spec_half_edges(), e, self.spec_half_edges().len() as int) <= 2
    }

    /// Every vertex that some half-edge originates at records one of its
    /// outgoing half-edges. Flipping a face can break this, so it stands
    /// apart from the structural invariant.
    pub open spec fn vertex_links(self) -> bool {
        forall|v: int|
            0 <= v < self.spec_vertices().len() && self.vertex_used(v) ==> (
            #[trigger] self.spec_vertices()[v]).half_edge < self.spec_half_edges().len()
                && self.spec_half_edges()[self.spec_vertices()[v].half_edge as int].origin == v
    }

    /// Whether any half-edge originates at vertex `v`.
    pub open spec fn vertex_used(self, v: int) -> bool {
        exists|h: int|
            0 <= h < self.spec_half_edges().len() && (#[trigger] self.spec_half_edges()[h]).origin
                == v
    }

    /// Get the number of vertices.
    pub fn n_vertices(&self) -> (n: usize)
        ensures
            n == self.spec_vertices().len(),
    {
        self.vertices.len()
    }

    /// Get a borrowed reference to the vertices.
    pub fn vertices(&self) -> (r: &Vec<HeVertex>)
        ensures
            r@ == self.spec_vertices(),
    {
        &self.vertices
    }

    /// Get a vertex by index.
    pub fn vertex(&self, index: usize) -> (r: HeVertex)
        requires
            index < self.spec_vertices().len(),
        ensures
            r == self.spec_vertices()[index as int],
    {
        self.vertices[index]
    }

    /// Get the number of faces.
    pub fn n_faces(&self) -> (n: usize)
        ensures
            n == self.spec_faces().len(),
    {
        self.faces.len()
    }

    /// Get a borrowed reference to the faces.
    pub fn faces(&self) -> (r: &Vec<HeFace>)
        ensures
            r@ == self.spec_faces(),
    {
        &self.faces
    }

    /// Get a face by index.
    pub fn face(&self, index: usize) -> (r: HeFace)
        requires
            index < self.spec_faces().len(),
        ensures
            r == self.spec_faces()[index as int],
    {
        self.faces[index]
    }

    /// Get the number of half edges.
    pub fn n_half_edges(&self) -> (n: usize)
        ensures
            n == self.spec_half_edges().len(),
    {
        self.half_edges.len()
    }

    /// Get a borrowed reference to the half edges.
    pub fn half_edges(&self) -> (r: &Vec<HeHalfEdge>)
        ensures
            r@ == self.spec_half_edges(),
    {
        &self.half_edges
    }

    /// Get a half edge by index.
    pub fn half_edge(&self, index: usize) -> (r: HeHalfEdge)
        requires
            index < self.spec_half_edges().len(),
        ensures
            r == self.spec_half_edges()[index as int],
    {
        self.half_edges[index]
    }

    /// Get the number of patches.
    pub fn n_patches(&self) -> (n: usize)
        ensures
            n == self.spec_patches().len(),
    {
        self.patches.len()
    }

    /// Get a borrowed reference to the patches.
    pub fn patches(&self) -> (r: &Vec<HePatch>)
        ensures
            r@.len() == self.spec_patches().len(),
            forall|i: int| 0 <= i < r@.len() ==> (#[trigger] r@[i]).name@ == self.spec_patches()[i],
    {
        &self.patches
    }


    /// Whether any of the first `upto` half-edges originates at vertex `v`.
    pub open spec fn used_upto(hes: Seq<HeHalfEdge>, v: int, upto: int) -> bool {
        exists|h: int| 0 <= h < upto && (#[trigger] hes[h]).origin == v
    }

    /// Link the half-edge twins and the vertex half-edge references: each
    /// undirected edge run along by exactly two half-edges makes them twins
    /// of one another; an edge run along once stays a boundary; a third
    /// half-edge on one edge is a manifold violation and fails the build.
    #[verifier::rlimit(100)]
    #[verifier::spinoff_prover]
    fn build_links(&mut self) -> (r: Result<(), HeMeshError>)
        requires
            old(self).wf(),
            forall|h: int|
                0 <= h < old(self).spec_half_edges().len() ==> (#[trigger] old(self).spec_half_edges()[h]).twin is None,
        ensures
            r is Err ==> r == Err::<(), HeMeshError>(HeMeshError::NonManifold) && exists|
                e: (usize, usize),
            |
                uedge_count(
                    old(self).spec_half_edges(),
                    e,
                    old(self).spec_half_edges().len() as int,
                ) >= 3,
            r is Ok ==> {
                &&& final(self).wf()
                &&& final(self).vertex_links()
                &&& final(self).manifold()
                &&& final(self).spec_faces() == old(self).spec_faces()
                &&& final(self).spec_patches() == old(self).spec_patches()
                &&& final(self).spec_vertices().len() == old(self).spec_vertices().len()
                &&& forall|v: int|
                    0 <= v < old(self).spec_vertices().len()
                        ==> (#[trigger] final(self).spec_vertices()[v]).origin == old(self).spec_vertices()[v].origin
                &&& final(self).spec_half_edges().len() == old(self).spec_half_edges().len()
                &&& forall|h: int|
                    0 <= h < old(self).spec_half_edges().len()
                        ==> (#[trigger] final(self).spec_half_edges()[h]).origin == old(self).spec_half_edges()[h].origin && final(self).spec_half_edges()[h].next == old(self).spec_half_edges()[h].next && final(self).spec_half_edges()[h].prev == old(self).spec_half_edges()[h].prev && final(self).spec_half_edges()[h].face == old(self).spec_half_edges()[h].face
                &&& forall|h: int|
                    0 <= h < final(self).spec_half_edges().len()
                        ==> ((#[trigger] final(self).spec_half_edges()[h]).twin is Some
                        <==> uedge_count(
                        final(self).spec_half_edges(),
                        uedge(final(self).spec_half_edges(), h),
                        final(self).spec_half_edges().len() as int,
                    ) == 2)
            },
    {
        let nh = self.half_edges.len();
        let nv = self.vertices.len();
        let ghost hes0 = self.spec_half_edges();
        proof {
            assert forall|h: int| 0 <= h < nh implies (#[trigger] hes0[h]).next < nh by {
                let f = hes0[h].face as int;
                assert(block_ok_at(self.spec_faces(), nh as int, f));
                assert(hb_start(self.spec_faces(), f) <= h < hb_end(
                    self.spec_faces(),
                    nh as int,
                    f,
                ));
                assert(face_forward(self.spec_faces(), hes0, f) || face_backward(
                    self.spec_faces(),
                    hes0,
                    f,
                ));
            }
        }
        let mut buckets: Vec<Vec<(usize, usize)>> = Vec::new();
        let mut w: usize = 0;
        while w < nv
            invariant
                w <= nv,
                buckets@.len() == w,
                forall|a: int| 0 <= a < w ==> (#[trigger] buckets@[a])@.len() == 0,
            decreases nv - w,
        {
            buckets.push(Vec::new());
            w += 1;
        }
        let mut i: usize = 0;
        while i < nh
            invariant
                i <= nh,
                self.wf(),
                nh == self.spec_half_edges().len(),
                nv == self.spec_vertices().len(),
                self.spec_faces() == old(self).spec_faces(),
                self.spec_patches() == old(self).spec_patches(),
                self.spec_vertices().len() == old(self).spec_vertices().len(),
                hes0 == old(self).spec_half_edges(),
                hes0.len() == nh,
                forall|h: int| 0 <= h < nh ==> (#[trigger] hes0[h]).next < nh,
                forall|v: int|
                    0 <= v < nv ==> (#[trigger] self.spec_vertices()[v]).origin == old(self).spec_vertices()[v].origin,
                forall|h: int|
                    0 <= h < nh ==> (#[trigger] self.spec_half_edges()[h]).origin == hes0[h].origin
                        && self.spec_half_edges()[h].next == hes0[h].next
                        && self.spec_half_edges()[h].prev == hes0[h].prev
                        && self.spec_half_edges()[h].face == hes0[h].face,
                buckets@.len() == nv,
                forall|a: int, p: int|
                    0 <= a < nv && 0 <= p < buckets@[a]@.len() ==> (#[trigger] buckets@[a]@[p]).0
                        >= a && buckets@[a]@[p].1 < i && uedge(
                        self.spec_half_edges(),
                        buckets@[a]@[p].1 as int,
                    ) == (a as usize, buckets@[a]@[p].0),
                forall|a: int, b: usize|
                    0 <= a < nv ==> #[trigger] bucket_count(
                        buckets@[a]@,
                        b,
                        buckets@[a]@.len() as int,
                    ) == uedge_count(self.spec_half_edges(), (a as usize, b), i as int),
                forall|a: int, b: usize|
                    0 <= a < nv ==> #[trigger] bucket_count(
                        buckets@[a]@,
                        b,
                        buckets@[a]@.len() as int,
                    ) <= 2,
                forall|h: int|
                    0 <= h < i ==> ((#[trigger] self.spec_half_edges()[h]).twin is Some
                        <==> uedge_count(
                        self.spec_half_edges(),
                        uedge(self.spec_half_edges(), h),
                        i as int,
                    ) == 2),
                forall|h: int|
                    i <= h < nh ==> (#[trigger] self.spec_half_edges()[h]).twin is None,
                forall|v: int|
                    0 <= v < nv && Self::used_upto(self.spec_half_edges(), v, i as int) ==> (
                    #[trigger] self.spec_vertices()[v]).half_edge < i && self.spec_half_edges()[
                        self.spec_vertices()[v].half_edge as int
                    ].origin == v,
            decreases nh - i,
        {
            let hi = self.half_edges[i];
            let hj = self.half_edges[hi.next];
            let vi = hi.origin;
            let vj = hj.origin;
            let a = if vi <= vj {
                vi
            } else {
                vj
            };
            let b = if vi <= vj {
                vj
            } else {
                vi
            };
            let ghost e = (a, b);
            proof {
                assert(uedge(self.spec_half_edges(), i as int) == e);
                assert(a < nv);
            }
            let vx = vertex_mut(&mut self.vertices, vi);
            vx.half_edge = i;
            let bucket_len = buckets[a].len();
            let mut count: usize = 0;
            let mut other: usize = 0;
            let mut x: usize = 0;
            while x < bucket_len
                invariant
                    x <= bucket_len,
                    a < nv,
                    buckets@.len() == nv,
                    bucket_len == buckets@[a as int]@.len(),
                    count <= x,
                    count == bucket_count(buckets@[a as int]@, b, x as int),
                    count >= 1 ==> exists|p: int|
                        0 <= p < x && (#[trigger] buckets@[a as int]@[p]) == (b, other),
                decreases bucket_len - x,
            {
                let entry = buckets[a][x];
                if entry.0 == b {
                    count += 1;
                    other = entry.1;
                    proof {
                        assert(buckets@[a as int]@[x as int] == (b, other));
                    }
                }
                x += 1;
            }
            proof {
                assert(count == uedge_count(self.spec_half_edges(), e, i as int));
            }
            let ghost prev_state = *self;
            if count >= 2 {
                proof {
                    let hes = self.spec_half_edges();
                    assert(uedge_count(hes, e, i + 1 as int) >= 3);
                    lemma_uedge_count_monotone(hes, e, i + 1, nh as int);
                    lemma_uedge_count_stable(hes0, hes, e, nh as int);
                    assert(uedge_count(hes0, e, nh as int) >= 3);
                }
                return Err(HeMeshError::NonManifold);
            }
            if count == 1 {
                proof {
                    let hes = self.spec_half_edges();
                    let p = choose|p: int|
                        0 <= p < bucket_len && (#[trigger] buckets@[a as int]@[p]) == (b, other);
                    assert(uedge(hes, other as int) == e);
                    assert(other < i);
                    assert(uedge_count(hes, uedge(hes, other as int), i as int) == 1);
                    assert(hes[other as int].twin is None);
                }
                let hm = he_mut(&mut self.half_edges, other);
                hm.twin = Some(i);
                let hm2 = he_mut(&mut self.half_edges, i);
                hm2.twin = Some(other);
                proof {
                    Self::lemma_pair_step(prev_state, *self, i as int, other as int, e, nh as int);
                }
            } else {
                proof {
                    Self::lemma_lone_step(prev_state, *self, i as int, e, nh as int);
                }
            }
            let ghost buckets0 = buckets@;
            let bk = bucket_mut(&mut buckets, a);
            bk.push((b, i));
            i += 1;
            proof {
                let hes = self.spec_half_edges();
                assert(buckets@[a as int]@ == buckets0[a as int]@.push((b, (i - 1) as usize)));
                assert forall|a2: int, b2: usize| 0 <= a2 < nv implies #[trigger] bucket_count(
                    buckets@[a2]@,
                    b2,
                    buckets@[a2]@.len() as int,
                ) == uedge_count(hes, (a2 as usize, b2), i as int) by {
                    assert(uedge_count(hes, (a2 as usize, b2), i as int) == uedge_count(
                        hes,
                        (a2 as usize, b2),
                        i - 1,
                    ) + if uedge(hes, i - 1) == (a2 as usize, b2) {
                        1nat
                    } else {
                        0nat
                    });
                    if a2 == a {
                        let s0 = buckets0[a2]@;
                        let s1 = buckets@[a2]@;
                        Self::lemma_bucket_count_prefix(s0, s1, b2, s0.len() as int);
                        assert(bucket_count(s1, b2, s1.len() as int) == bucket_count(
                            s0,
                            b2,
                            s0.len() as int,
                        ) + if b2 == b {
                            1nat
                        } else {
                            0nat
                        });
                        assert(uedge(hes, i - 1) == (a2 as usize, b2) <==> b2 == b);
                    } else {
                        assert(buckets@[a2]@ == buckets0[a2]@);
                        assert(uedge(hes, i - 1) != (a2 as usize, b2));
                    }
                }
                assert forall|a2: int, p: int|
                    0 <= a2 < nv && 0 <= p < buckets@[a2]@.len() implies (#[trigger] buckets@[
                    a2
                ]@[p]).0 >= a2 && buckets@[a2]@[p].1 < i && uedge(hes, buckets@[a2]@[p].1 as int)
                    == (a2 as usize, buckets@[a2]@[p].0) by {
                    if a2 == a && p == buckets@[a2]@.len() - 1 {
                        assert(buckets@[a2]@[p] == (b, (i - 1) as usize));
                    } else {
                        assert(buckets@[a2]@[p] == buckets0[a2]@[p]);
                    }
                }
                assert forall|a2: int, b2: usize| 0 <= a2 < nv implies #[trigger] bucket_count(
                    buckets@[a2]@,
                    b2,
                    buckets@[a2]@.len() as int,
                ) <= 2 by {
                    if a2 == a {
                        let s0 = buckets0[a2]@;
                        let s1 = buckets@[a2]@;
                        Self::lemma_bucket_count_prefix(s0, s1, b2, s0.len() as int);
                    } else {
                        assert(buckets@[a2]@ == buckets0[a2]@);
                    }
                }
                assert forall|v: int|
                    0 <= v < nv && Self::used_upto(hes, v, i as int) implies (
                #[trigger] self.spec_vertices()[v]).half_edge < i && hes[self.spec_vertices()[
                    v
                ].half_edge as int].origin == v by {
                    if v == vi {
                        assert(self.spec_vertices()[v].half_edge == i - 1);
                        assert(hes[i - 1].origin == vi);
                    } else {
                        let h = choose|h: int|
                            0 <= h < i && (#[trigger] hes[h]).origin == v;
                        assert(h < i - 1);
                        assert(Self::used_upto(hes, v, i - 1));
                    }
                }
            }
        }
        proof {
            let hes = self.spec_half_edges();
            assert(final(self).manifold()) by {
                assert forall|e: (usize, usize)| uedge_count(hes, e, nh as int) <= 2 by {
                    if uedge_count(hes, e, nh as int) > 2 {
                        Self::lemma_count_has_member(hes, e, nh as int);
                        let h = choose|h: int| 0 <= h < nh && uedge(hes, h) == e;
                        let v1 = hes[h].origin;
                        let v2 = hes[hes[h].next as int].origin;
                        assert(e == uedge(hes, h));
                        assert(e.0 <= e.1 && e.0 < nv);
                        assert(bucket_count(buckets@[e.0 as int]@, e.1, buckets@[
                            e.0 as int
                        ]@.len() as int) == uedge_count(hes, e, nh as int));
                    }
                }
            }
            assert(final(self).vertex_links()) by {
                assert forall|v: int|
                    0 <= v < final(self).spec_vertices().len() && final(self).vertex_used(v)
                    implies (#[trigger] final(self).spec_vertices()[v]).half_edge < final(self).spec_half_edges().len() && final(self).spec_half_edges()[final(self).spec_vertices()[v].half_edge as int].origin == v by {
                    assert(Self::used_upto(hes, v, nh as int));
                }
            }
        }
        Ok(())
    }

    /// After twinning two half-edges on the same doubly-run edge, the twin
    /// assignment matches the counts over one more half-edge taken in.
    #[verifier::rlimit(100)]
    #[verifier::spinoff_prover]
    proof fn lemma_pair_step(pre: HeMesh, post: HeMesh, i: int, other: int, e: (usize, usize), nh: int)
        requires
            pre.wf(),
            nh == pre.spec_half_edges().len(),
            nh <= usize::MAX,
            post.spec_half_edges().len() == nh,
            0 <= other < i < nh,
            uedge(pre.spec_half_edges(), i) == e,
            uedge(pre.spec_half_edges(), other) == e,
            uedge_count(pre.spec_half_edges(), e, i) == 1,
            forall|h: int| 0 <= h < nh ==> (#[trigger] pre.spec_half_edges()[h]).next < nh,
            forall|h: int|
                0 <= h < i ==> ((#[trigger] pre.spec_half_edges()[h]).twin is Some
                    <==> uedge_count(
                    pre.spec_half_edges(),
                    uedge(pre.spec_half_edges(), h),
                    i,
                ) == 2),
            forall|h: int| i <= h < nh ==> (#[trigger] pre.spec_half_edges()[h]).twin is None,
            post.spec_half_edges() == pre.spec_half_edges().update(
                other,
                HeHalfEdge { twin: Some(i as usize), ..pre.spec_half_edges()[other] },
            ).update(
                i,
                HeHalfEdge {
                    twin: Some(other as usize),
                    ..pre.spec_half_edges().update(
                        other,
                        HeHalfEdge { twin: Some(i as usize), ..pre.spec_half_edges()[other] },
                    )[i]
                },
            ),
            post.spec_faces() == pre.spec_faces(),
            post.spec_vertices().len() == pre.spec_vertices().len(),
            post.spec_patches() == pre.spec_patches(),
        ensures
            post.wf(),
            forall|h: int|
                0 <= h < nh ==> (#[trigger] post.spec_half_edges()[h]).origin
                    == pre.spec_half_edges()[h].origin && post.spec_half_edges()[h].next
                    == pre.spec_half_edges()[h].next && post.spec_half_edges()[h].prev
                    == pre.spec_half_edges()[h].prev && post.spec_half_edges()[h].face
                    == pre.spec_half_edges()[h].face,
            forall|h: int|
                0 <= h < i + 1 ==> ((#[trigger] post.spec_half_edges()[h]).twin is Some
                    <==> uedge_count(
                    post.spec_half_edges(),
                    uedge(post.spec_half_edges(), h),
                    i + 1,
                ) == 2),
            forall|h: int| i + 1 <= h < nh ==> (#[trigger] post.spec_half_edges()[h]).twin is None,
            forall|ee: (usize, usize), upto: int|
                0 <= upto <= nh ==> uedge_count(post.spec_half_edges(), ee, upto) == uedge_count(
                    pre.spec_half_edges(),
                    ee,
                    upto,
                ),
    {
        let h0 = pre.spec_half_edges();
        let h1 = post.spec_half_edges();
        assert forall|h: int| 0 <= h < nh implies (#[trigger] h1[h]).origin == h0[h].origin && h1[h].next
            == h0[h].next && h1[h].prev == h0[h].prev && h1[h].face == h0[h].face by {}
        assert forall|ee: (usize, usize), upto: int| 0 <= upto <= nh implies uedge_count(h1, ee, upto)
            == uedge_count(h0, ee, upto) by {
            lemma_uedge_count_stable(h0, h1, ee, upto);
        }
        lemma_uedge_count_stable(h0, h1, e, nh);
        assert forall|h: int| 0 <= h < i + 1 implies ((#[trigger] h1[h]).twin is Some
            <==> uedge_count(h1, uedge(h1, h), i + 1) == 2) by {
            assert(uedge(h1, h) == uedge(h0, h));
            assert(uedge_count(h1, uedge(h1, h), i + 1) == uedge_count(h0, uedge(h0, h), i + 1));
            assert(uedge_count(h0, uedge(h0, h), i + 1) == uedge_count(h0, uedge(h0, h), i)
                + if uedge(h0, i) == uedge(h0, h) {
                1nat
            } else {
                0nat
            });
            if h == i {
                assert(h1[i].twin == Some(other as usize));
                lemma_uedge_count_member(h0, e, other, i);
                assert(uedge_count(h0, e, i + 1) == 2);
            } else if h == other {
                assert(h1[other].twin == Some(i as usize));
                assert(uedge_count(h0, e, i + 1) == 2);
            } else {
                assert(h1[h].twin == h0[h].twin);
                if uedge(h0, h) == e {
                    lemma_uedge_count_two(h0, e, if h < other {
                        h
                    } else {
                        other
                    }, if h < other {
                        other
                    } else {
                        h
                    }, i);
                    assert(false);
                } else {
                    assert(uedge_count(h0, uedge(h0, h), i + 1) == uedge_count(
                        h0,
                        uedge(h0, h),
                        i,
                    ));
                }
            }
        }
        assert(h0[other].twin is None) by {
            assert(h0[other].twin is Some <==> uedge_count(h0, uedge(h0, other), i) == 2);
        }
        Self::lemma_pair_step_wf(pre, post, i, other, e, nh);
    }

    /// The structural invariant survives twinning two half-edges on one
    /// doubly-run edge.
    #[verifier::rlimit(100)]
    #[verifier::spinoff_prover]
    proof fn lemma_pair_step_wf(pre: HeMesh, post: HeMesh, i: int, other: int, e: (usize, usize), nh: int)
        requires
            pre.wf(),
            nh == pre.spec_half_edges().len(),
            nh <= usize::MAX,
            post.spec_half_edges().len() == nh,
            0 <= other < i < nh,
            uedge(pre.spec_half_edges(), i) == e,
            uedge(pre.spec_half_edges(), other) == e,
            pre.spec_half_edges()[other].twin is None,
            forall|h: int| i <= h < nh ==> (#[trigger] pre.spec_half_edges()[h]).twin is None,
            forall|h: int|
                0 <= h < nh ==> (#[trigger] post.spec_half_edges()[h]).origin
                    == pre.spec_half_edges()[h].origin && post.spec_half_edges()[h].next
                    == pre.spec_half_edges()[h].next && post.spec_half_edges()[h].prev
                    == pre.spec_half_edges()[h].prev && post.spec_half_edges()[h].face
                    == pre.spec_half_edges()[h].face,
            post.spec_half_edges()[i].twin == Some(other as usize),
            post.spec_half_edges()[other].twin == Some(i as usize),
            forall|h: int|
                0 <= h < nh && h != i && h != other ==> (#[trigger] post.spec_half_edges()[h]).twin
                    == pre.spec_half_edges()[h].twin,
            post.spec_faces() == pre.spec_faces(),
            post.spec_vertices().len() == pre.spec_vertices().len(),
            post.spec_patches() == pre.spec_patches(),
            forall|h: int| 0 <= h < nh ==> uedge(post.spec_half_edges(), h) == uedge(
                pre.spec_half_edges(),
                h,
            ),
        ensures
            post.wf(),
    {
        let h0 = pre.spec_half_edges();
        let h1 = post.spec_half_edges();
        let faces = post.spec_faces();
        assert(blocks_ok(faces, nh));
        lemma_dirs_preserved(faces, h0, h1);
        lemma_pair_twins(h0, h1, i, other, e);
        assert(twins_ok(h1));
        assert forall|h: int| 0 <= h < nh implies (#[trigger] h1[h]).face < faces.len()
            && hb_start(faces, h1[h].face as int) <= h < hb_end(faces, nh, h1[h].face as int)
            && h1[h].origin < post.spec_vertices().len() by {
            assert(h0[h].face < faces.len());
            assert(hb_start(faces, h0[h].face as int) <= h < hb_end(
                faces,
                nh,
                h0[h].face as int,
            ));
            assert(h0[h].origin < pre.spec_vertices().len());
        }
    }

    /// Taking in a half-edge on a so far unseen edge leaves every twin
    /// assignment matching the counts.
    #[verifier::rlimit(100)]
    #[verifier::spinoff_prover]
    proof fn lemma_lone_step(pre: HeMesh, post: HeMesh, i: int, e: (usize, usize), nh: int)
        requires
            pre.wf(),
            nh == pre.spec_half_edges().len(),
            0 <= i < nh,
            uedge(pre.spec_half_edges(), i) == e,
            uedge_count(pre.spec_half_edges(), e, i) == 0,
            forall|h: int| 0 <= h < nh ==> (#[trigger] pre.spec_half_edges()[h]).next < nh,
            forall|h: int|
                0 <= h < i ==> ((#[trigger] pre.spec_half_edges()[h]).twin is Some
                    <==> uedge_count(
                    pre.spec_half_edges(),
                    uedge(pre.spec_half_edges(), h),
                    i,
                ) == 2),
            forall|h: int| i <= h < nh ==> (#[trigger] pre.spec_half_edges()[h]).twin is None,
            post == pre,
        ensures
            forall|h: int|
                0 <= h < i + 1 ==> ((#[trigger] post.spec_half_edges()[h]).twin is Some
                    <==> uedge_count(
                    post.spec_half_edges(),
                    uedge(post.spec_half_edges(), h),
                    i + 1,
                ) == 2),
    {
        let h0 = pre.spec_half_edges();
        assert forall|h: int| 0 <= h < i + 1 implies ((#[trigger] h0[h]).twin is Some
            <==> uedge_count(h0, uedge(h0, h), i + 1) == 2) by {
            assert(uedge_count(h0, uedge(h0, h), i + 1) == uedge_count(h0, uedge(h0, h), i)
                + if uedge(h0, i) == uedge(h0, h) {
                1nat
            } else {
                0nat
            });
            if h == i {
                assert(uedge_count(h0, e, i + 1) == 1);
            } else if uedge(h0, h) == e {
                lemma_uedge_count_member(h0, e, h, i);
                assert(false);
            }
        }
    }

    /// A positive count names a member.
    proof fn lemma_count_has_member(hes: Seq<HeHalfEdge>, e: (usize, usize), upto: int)
        requires
            0 <= upto <= hes.len(),
            uedge_count(hes, e, upto) >= 1,
        ensures
            exists|h: int| 0 <= h < upto && uedge(hes, h) == e,
        decreases upto,
    {
        if upto > 0 {
            if uedge(hes, upto - 1) == e {
                assert(0 <= upto - 1 < upto && uedge(hes, upto - 1) == e);
            } else {
                Self::lemma_count_has_member(hes, e, upto - 1);
            }
        }
    }

    /// Bucket counts look only at the entries taken in.
    proof fn lemma_bucket_count_prefix(
        s1: Seq<(usize, usize)>,
        s2: Seq<(usize, usize)>,
        b: usize,
        upto: int,
    )
        requires
            0 <= upto <= s1.len(),
            upto <= s2.len(),
            forall|p: int| 0 <= p < upto ==> s1[p] == s2[p],
        ensures
            bucket_count(s1, b, upto) == bucket_count(s2, b, upto),
        decreases upto,
    {
        if upto > 0 {
            Self::lemma_bucket_count_prefix(s1, s2, b, upto - 1);
        }
    }

    /// The first `upto` faces mirror the soup: each face's block has the
    /// soup face's size, runs forward, starts where the previous block
    /// ended, visits the soup face's vertices in order, and carries the soup
    /// face's patch id.
    pub open spec fn faces_match(self, soup: PolygonSoup, upto: int) -> bool {
        forall|f: int|
            0 <= f < upto ==> {
                &&& #[trigger] hb_start(self.spec_faces(), f) == soup_size(soup, f)
                &&& hb_end(self.spec_faces(), self.spec_half_edges().len() as int, f) - hb_start(
                    self.spec_faces(),
                    f,
                ) == soup.spec_face(f).len()
                &&& face_forward(self.spec_faces(), self.spec_half_edges(), f)
                &&& self.spec_faces()[f].patch == soup.spec_face_patch(f)
                &&& forall|x: int|
                    0 <= x < soup.spec_face(f).len() ==> (#[trigger] self.spec_half_edges()[
                        hb_start(self.spec_faces(), f) + x
                    ]).origin == soup.spec_face(f)[x]
            }
    }

    /// In a well-formed mesh every successor handle stays in range.
    proof fn lemma_nexts_in_range(self)
        requires
            self.wf(),
        ensures
            forall|h: int|
                0 <= h < self.spec_half_edges().len() ==> (#[trigger] self.spec_half_edges()[
                    h
                ]).next < self.spec_half_edges().len(),
    {
        let hes = self.spec_half_edges();
        let faces = self.spec_faces();
        assert forall|h: int| 0 <= h < hes.len() implies (#[trigger] hes[h]).next < hes.len() by {
            let f = hes[h].face as int;
            assert(block_ok_at(faces, hes.len() as int, f));
            assert(hb_start(faces, f) <= h < hb_end(faces, hes.len() as int, f));
            assert(face_forward(faces, hes, f) || face_backward(faces, hes, f));
        }
    }

    /// Whether any half-edge is on a boundary.
    pub open spec fn spec_is_closed(self) -> bool {
        forall|h: int|
            0 <= h < self.spec_half_edges().len() ==> (#[trigger] self.spec_half_edges()[h]).twin
                is Some
    }

    /// Whether every twin pair runs in opposite directions.
    pub open spec fn spec_is_consistent(self) -> bool {
        forall|h: int|
            0 <= h < self.spec_half_edges().len() && (#[trigger] self.spec_half_edges()[h]).twin
                is Some ==> self.spec_half_edges()[self.spec_half_edges()[h].twin->0 as int].origin
                != self.spec_half_edges()[h].origin
    }

    /// Construct a half edge mesh from a polygon soup: patches, vertices and
    /// faces are carried over in order, each face emitting one block of
    /// half-edges linked forward around it, and the twin links are then
    /// built; a soup in which three faces share one undirected edge is
    /// rejected as non-manifold.
    #[verifier::rlimit(100)]
    #[verifier::spinoff_prover]
    pub fn new(soup: &PolygonSoup) -> (r: Result<HeMesh, HeMeshError>)
        requires
            soup.wf(),
            forall|f: int|
                0 <= f < soup.spec_n_faces() ==> (#[trigger] soup.spec_face(f)).len() >= 3,
            forall|f: int, x: int|
                0 <= f < soup.spec_n_faces() && 0 <= x < soup.spec_face(f).len() ==> (
                #[trigger] soup.spec_face(f)[x]) < soup.spec_vertices().len(),
            forall|f: int|
                0 <= f < soup.spec_n_faces() && (#[trigger] soup.spec_face_patch(f)) is Some
                    ==> soup.spec_face_patch(f)->0 < soup.spec_patches().len(),
        ensures
            r matches Err(e) ==> e == HeMeshError::NonManifold && exists|e2: (usize, usize)|
                soup_edge_count(*soup, e2, soup.spec_n_faces()) >= 3,
            r matches Ok(m) ==> {
                &&& m.wf()
                &&& m.vertex_links()
                &&& m.manifold()
                &&& forall|e2: (usize, usize)|
                    soup_edge_count(*soup, e2, soup.spec_n_faces()) <= 2
                &&& m.spec_vertices().len() == soup.spec_vertices().len()
                &&& forall|v: int|
                    0 <= v < soup.spec_vertices().len() ==> (#[trigger] m.spec_vertices()[
                        v
                    ]).origin == soup.spec_vertices()[v]
                &&& m.spec_patches() == soup.spec_patches()
                &&& m.spec_faces().len() == soup.spec_n_faces()
                &&& m.spec_half_edges().len() == soup_size(*soup, soup.spec_n_faces())
                &&& m.faces_match(*soup, soup.spec_n_faces())
                &&& forall|h: int|
                    0 <= h < m.spec_half_edges().len() ==> ((#[trigger] m.spec_half_edges()[
                        h
                    ]).twin is Some <==> uedge_count(
                        m.spec_half_edges(),
                        uedge(m.spec_half_edges(), h),
                        m.spec_half_edges().len() as int,
                    ) == 2)
            },
    {
        let mut mesh = HeMesh {
            vertices: Vec::new(),
            faces: Vec::new(),
            half_edges: Vec::new(),
            patches: Vec::new(),
        };
        let np = soup.n_patches();
        let mut i: usize = 0;
        while i < np
            invariant
                i <= np,
                np == soup.spec_patches().len(),
                soup.wf(),
                mesh.spec_patches() == soup.spec_patches().take(i as int),
                mesh.spec_vertices().len() == 0,
                mesh.spec_faces().len() == 0,
                mesh.spec_half_edges().len() == 0,
            decreases np - i,
        {
            let name = soup.patch(i);
            let mut owned: Vec<u8> = Vec::new();
            let mut q: usize = 0;
            while q < name.len()
                invariant
                    q <= name@.len(),
                    owned@ == name@.subrange(0, q as int),
                decreases name@.len() - q,
            {
                owned.push(name[q]);
                q += 1;
                proof {
                    assert(owned@ =~= name@.subrange(0, q as int));
                }
            }
            proof {
                assert(owned@ =~= soup.spec_patches()[i as int]);
            }
            mesh.insert_patch(owned);
            i += 1;
            proof {
                assert(mesh.spec_patches() =~= soup.spec_patches().take(i as int));
            }
        }
        proof {
            assert(mesh.spec_patches() =~= soup.spec_patches());
        }
        let nv = soup.n_vertices();
        let mut v: usize = 0;
        while v < nv
            invariant
                v <= nv,
                nv == soup.spec_vertices().len(),
                soup.wf(),
                mesh.spec_patches() == soup.spec_patches(),
                mesh.spec_vertices().len() == v,
                forall|x: int|
                    0 <= x < v ==> (#[trigger] mesh.spec_vertices()[x]).origin
                        == soup.spec_vertices()[x],
                mesh.spec_faces().len() == 0,
                mesh.spec_half_edges().len() == 0,
            decreases nv - v,
        {
            let origin = soup.vertex(v);
            mesh.insert_vertex(origin);
            v += 1;
        }
        proof {
            assert(mesh.wf());
        }
        let nf = soup.n_faces();
        let mut f: usize = 0;
        while f < nf
            invariant
                f <= nf,
                nf == soup.spec_n_faces(),
                soup.wf(),
                forall|f2: int|
                    0 <= f2 < soup.spec_n_faces() ==> (#[trigger] soup.spec_face(f2)).len() >= 3,
                forall|f2: int, x: int|
                    0 <= f2 < soup.spec_n_faces() && 0 <= x < soup.spec_face(f2).len() ==> (
                    #[trigger] soup.spec_face(f2)[x]) < soup.spec_vertices().len(),
                forall|f2: int|
                    0 <= f2 < soup.spec_n_faces() && (#[trigger] soup.spec_face_patch(f2)) is Some
                        ==> soup.spec_face_patch(f2)->0 < soup.spec_patches().len(),
                mesh.wf(),
                mesh.spec_patches() == soup.spec_patches(),
                mesh.spec_vertices().len() == soup.spec_vertices().len(),
                forall|x: int|
                    0 <= x < soup.spec_vertices().len() ==> (#[trigger] mesh.spec_vertices()[
                        x
                    ]).origin == soup.spec_vertices()[x],
                mesh.spec_faces().len() == f,
                mesh.spec_half_edges().len() == soup_size(*soup, f as int),
                mesh.faces_match(*soup, f as int),
                forall|e: (usize, usize)|
                    #[trigger] uedge_count(
                        mesh.spec_half_edges(),
                        e,
                        mesh.spec_half_edges().len() as int,
                    ) == soup_edge_count(*soup, e, f as int),
                forall|h: int|
                    0 <= h < mesh.spec_half_edges().len() ==> (#[trigger] mesh.spec_half_edges()[
                        h
                    ]).twin is None,
            decreases nf - f,
        {
            let ghost before = mesh;
            let (vertices, patch) = soup.face(f);
            mesh.insert_face(&vertices, patch);
            f += 1;
            proof {
                let ring = soup.spec_face(f - 1);
                let hes0 = before.spec_half_edges();
                let hes1 = mesh.spec_half_edges();
                let nh0 = hes0.len() as int;
                let nh1 = hes1.len() as int;
                before.lemma_nexts_in_range();
                assert(nh1 == nh0 + ring.len());
                assert(hb_start(mesh.spec_faces(), f - 1) == nh0);
                assert(hb_end(mesh.spec_faces(), nh1, f - 1) == nh1);
                // the appended block's edges are the ring's edges
                assert forall|y: int| 0 <= y < ring.len() implies #[trigger] uedge(hes1, nh0 + y)
                    == ring_edge(ring, y) by {
                    assert(face_forward(mesh.spec_faces(), hes1, f - 1));
                    assert(hes1[nh0 + y].next == block_fwd(mesh.spec_faces(), nh1, f - 1, nh0 + y));
                    assert(hes1[nh0 + y].origin == ring[y]);
                    if y + 1 < ring.len() {
                        let z = y + 1;
                        assert(hes1[nh0 + z].origin == ring[z]);
                    } else {
                        assert(hes1[nh0 + 0].origin == ring[0]);
                    }
                }
                // counts extend by the ring's counts
                assert forall|e: (usize, usize)| #[trigger] uedge_count(hes1, e, nh1)
                    == soup_edge_count(*soup, e, f as int) by {
                    lemma_uedge_count_prefix(hes0, hes1, e, nh0, nh0);
                    lemma_block_edge_count(hes1, ring, nh0, e, ring.len() as int);
                    assert(uedge_count(hes1, e, nh0) == soup_edge_count(*soup, e, f - 1));
                }
                // earlier faces still match; the new face matches by insert_face
                assert forall|f2: int| 0 <= f2 < f implies {
                    &&& #[trigger] hb_start(mesh.spec_faces(), f2) == soup_size(*soup, f2)
                    &&& hb_end(mesh.spec_faces(), nh1, f2) - hb_start(mesh.spec_faces(), f2)
                        == soup.spec_face(f2).len()
                    &&& face_forward(mesh.spec_faces(), hes1, f2)
                    &&& mesh.spec_faces()[f2].patch == soup.spec_face_patch(f2)
                    &&& forall|x: int|
                        0 <= x < soup.spec_face(f2).len() ==> (#[trigger] hes1[hb_start(
                            mesh.spec_faces(),
                            f2,
                        ) + x]).origin == soup.spec_face(f2)[x]
                } by {
                    if f2 < f - 1 {
                        assert(hb_start(before.spec_faces(), f2) == soup_size(*soup, f2));
                        assert(hb_start(mesh.spec_faces(), f2) == hb_start(
                            before.spec_faces(),
                            f2,
                        ));
                        assert(hb_end(mesh.spec_faces(), nh1, f2) == hb_end(
                            before.spec_faces(),
                            nh0,
                            f2,
                        ));
                        assert(face_forward(before.spec_faces(), hes0, f2));
                        assert(face_forward(mesh.spec_faces(), hes1, f2));
                        assert(mesh.spec_faces()[f2] == before.spec_faces()[f2]);
                        assert forall|x: int| 0 <= x < soup.spec_face(f2).len() implies (
                        #[trigger] hes1[hb_start(mesh.spec_faces(), f2) + x]).origin
                            == soup.spec_face(f2)[x] by {
                            assert(block_ok_at(before.spec_faces(), nh0, f2));
                            assert(hb_start(before.spec_faces(), f2) + x < hb_end(
                                before.spec_faces(),
                                nh0,
                                f2,
                            ) <= nh0);
                            assert(hes1[hb_start(before.spec_faces(), f2) + x] == hes0[hb_start(
                                before.spec_faces(),
                                f2,
                            ) + x]);
                        }
                    } else {
                        assert(hb_start(mesh.spec_faces(), f - 1) == nh0);
                        assert(soup_size(*soup, f - 1) == nh0);
                        assert forall|x: int| 0 <= x < ring.len() implies (#[trigger] hes1[hb_start(
                            mesh.spec_faces(),
                            f - 1,
                        ) + x]).origin == ring[x] by {
                            assert(hes1[nh0 + x].origin == ring[x]);
                        }
                    }
                }
            }
        }
        let ghost linked = mesh;
        let built = mesh.build_links();
        match built {
            Ok(()) => {
                proof {
                    Self::lemma_new_finish(linked, mesh, *soup);
                }
                Ok(mesh)
            },
            Err(e) => Err(e),
        }
    }


    /// The twin pass leaves the face blocks, rings and edge counts of the
    /// freshly built mesh in place.
    #[verifier::rlimit(100)]
    #[verifier::spinoff_prover]
    proof fn lemma_new_finish(linked: HeMesh, m: HeMesh, soup: PolygonSoup)
        requires
            linked.wf(),
            soup.wf(),
            m.spec_faces() == linked.spec_faces(),
            m.spec_half_edges().len() == linked.spec_half_edges().len(),
            forall|h: int|
                0 <= h < linked.spec_half_edges().len() ==> (#[trigger] m.spec_half_edges()[
                    h
                ]).origin == linked.spec_half_edges()[h].origin && m.spec_half_edges()[h].next
                    == linked.spec_half_edges()[h].next && m.spec_half_edges()[h].prev
                    == linked.spec_half_edges()[h].prev && m.spec_half_edges()[h].face
                    == linked.spec_half_edges()[h].face,
            forall|e: (usize, usize)|
                #[trigger] uedge_count(
                    linked.spec_half_edges(),
                    e,
                    linked.spec_half_edges().len() as int,
                ) == soup_edge_count(soup, e, soup.spec_n_faces()),
            m.manifold(),
            linked.faces_match(soup, soup.spec_n_faces()),
            linked.spec_faces().len() == soup.spec_n_faces(),
        ensures
            forall|e2: (usize, usize)| soup_edge_count(soup, e2, soup.spec_n_faces()) <= 2,
            m.faces_match(soup, soup.spec_n_faces()),
    {
        let h0 = linked.spec_half_edges();
        let h1 = m.spec_half_edges();
        let nh = h0.len() as int;
        linked.lemma_nexts_in_range();
        assert forall|e: (usize, usize)| #[trigger] soup_edge_count(
            soup,
            e,
            soup.spec_n_faces(),
        ) <= 2 by {
            lemma_uedge_count_stable(h0, h1, e, nh);
            assert(uedge_count(h1, e, nh) <= 2);
        }
        assert forall|f2: int| 0 <= f2 < soup.spec_n_faces() implies {
            &&& #[trigger] hb_start(m.spec_faces(), f2) == soup_size(soup, f2)
            &&& hb_end(m.spec_faces(), nh, f2) - hb_start(m.spec_faces(), f2) == soup.spec_face(
                f2,
            ).len()
            &&& face_forward(m.spec_faces(), h1, f2)
            &&& m.spec_faces()[f2].patch == soup.spec_face_patch(f2)
            &&& forall|x: int|
                0 <= x < soup.spec_face(f2).len() ==> (#[trigger] h1[hb_start(m.spec_faces(), f2)
                    + x]).origin == soup.spec_face(f2)[x]
        } by {
            assert(m.spec_faces() == linked.spec_faces());
            assert(hb_start(linked.spec_faces(), f2) == soup_size(soup, f2));
            assert(block_ok_at(linked.spec_faces(), nh, f2));
            assert(face_forward(linked.spec_faces(), h0, f2));
            assert(face_forward(m.spec_faces(), h1, f2)) by {
                assert forall|h: int|
                    hb_start(m.spec_faces(), f2) <= h < hb_end(m.spec_faces(), nh, f2) implies (
                #[trigger] h1[h]).next == block_fwd(m.spec_faces(), nh, f2, h) && h1[h].prev
                    == block_bwd(m.spec_faces(), nh, f2, h) by {
                    assert(h0[h].next == block_fwd(linked.spec_faces(), nh, f2, h));
                    assert(h0[h].prev == block_bwd(linked.spec_faces(), nh, f2, h));
                }
            }
            assert forall|x: int| 0 <= x < soup.spec_face(f2).len() implies (#[trigger] h1[hb_start(
                m.spec_faces(),
                f2,
            ) + x]).origin == soup.spec_face(f2)[x] by {
                assert(h0[hb_start(linked.spec_faces(), f2) + x].origin == soup.spec_face(f2)[x]);
            }
        }
    }

    /// Check if the mesh is closed.
    pub fn is_closed(&self) -> (r: bool)
        ensures
            r == self.spec_is_closed(),
    {
        let n = self.half_edges.len();
        let mut h: usize = 0;
        while h < n
            invariant
                h <= n,
                n == self.spec_half_edges().len(),
                forall|x: int|
                    0 <= x < h ==> (#[trigger] self.spec_half_edges()[x]).twin is Some,
            decreases n - h,
        {
            if self.half_edges[h].twin.is_none() {
                return false;
            }
            h += 1;
        }
        true
    }

    /// Check if all twin pairs run in opposite directions, so that all
    /// contiguous faces are oriented consistently.
    pub fn is_consistent(&self) -> (r: bool)
        requires
            self.wf(),
        ensures
            r == self.spec_is_consistent(),
    {
        let n = self.half_edges.len();
        let mut h: usize = 0;
        while h < n
            invariant
                h <= n,
                self.wf(),
                n == self.spec_half_edges().len(),
                forall|x: int|
                    0 <= x < h && (#[trigger] self.spec_half_edges()[x]).twin is Some
                        ==> self.spec_half_edges()[self.spec_half_edges()[x].twin->0 as int].origin
                        != self.spec_half_edges()[x].origin,
            decreases n - h,
        {
            let he = self.half_edges[h];
            match he.twin {
                Some(t) => {
                    if self.half_edges[t].origin == he.origin {
                        return false;
                    }
                },
                None => {},
            }
            h += 1;
        }
        true
    }

    /// Check if the mesh is composed of strictly triangles.
    pub fn is_triangles(&self) -> (r: bool)
        requires
            self.wf(),
        ensures
            r == (forall|f: int|
                0 <= f < self.spec_faces().len() ==> hb_end(
                    self.spec_faces(),
                    self.spec_half_edges().len() as int,
                    f,
                ) - #[trigger] hb_start(self.spec_faces(), f) == 3),
    {
        let nf = self.faces.len();
        let mut f: usize = 0;
        while f < nf
            invariant
                f <= nf,
                self.wf(),
                nf == self.spec_faces().len(),
                forall|x: int|
                    0 <= x < f ==> hb_end(
                        self.spec_faces(),
                        self.spec_half_edges().len() as int,
                        x,
                    ) - #[trigger] hb_start(self.spec_faces(), x) == 3,
            decreases nf - f,
        {
            let ring = self.face_half_edges(f);
            if ring.len() != 3 {
                return false;
            }
            f += 1;
        }
        true
    }

    /// Get the half edges defining the boundary of a face, in cycle order
    /// starting from the face's stored half-edge.
    pub fn face_half_edges(&self, index: usize) -> (r: Vec<usize>)
        requires
            self.wf(),
            index < self.spec_faces().len(),
        ensures
            r@.len() == hb_end(
                self.spec_faces(),
                self.spec_half_edges().len() as int,
                index as int,
            ) - hb_start(self.spec_faces(), index as int),
            r@.len() >= 3,
            r@[0] == self.spec_faces()[index as int].half_edge,
            forall|x: int|
                0 <= x < r@.len() ==> hb_start(self.spec_faces(), index as int) <= #[trigger] r@[x]
                    < hb_end(
                    self.spec_faces(),
                    self.spec_half_edges().len() as int,
                    index as int,
                ) && self.spec_half_edges()[r@[x] as int].face == index,
            forall|x: int|
                0 < x < r@.len() ==> #[trigger] r@[x] == self.spec_half_edges()[r@[
                    x - 1
                ] as int].next,
            self.spec_half_edges()[r@[r@.len() - 1] as int].next == r@[0],
            forall|x: int, y: int| 0 <= x < y < r@.len() ==> r@[x] != r@[y],
            forall|x: int|
                0 <= x < r@.len() ==> #[trigger] r@[x] == cycle_handle(
                    self.spec_faces(),
                    self.spec_half_edges(),
                    index as int,
                    x,
                ),
    {
        let nh = self.half_edges.len();
        let nf = self.faces.len();
        let start = self.faces[index].half_edge;
        let end = if index + 1 < nf {
            self.faces[index + 1].half_edge
        } else {
            nh
        };
        let ghost faces = self.spec_faces();
        let ghost hes = self.spec_half_edges();
        proof {
            assert(block_ok_at(faces, nh as int, index as int));
            assert(hb_start(faces, index as int) + 3 <= hb_end(faces, nh as int, index as int)
                <= nh);
        }
        let k = end - start;
        let mut r: Vec<usize> = Vec::new();
        let mut curr = start;
        let mut x: usize = 0;
        while x < k
            invariant
                x <= k,
                self.wf(),
                faces == self.spec_faces(),
                hes == self.spec_half_edges(),
                nh == hes.len(),
                index < faces.len(),
                start == hb_start(faces, index as int),
                start + k == hb_end(faces, nh as int, index as int),
                start + k <= nh,
                k >= 3,
                r@.len() == x,
                face_forward(faces, hes, index as int) ==> curr == (if x == 0 {
                    start as int
                } else if x < k {
                    start + x
                } else {
                    start as int
                }),
                face_backward(faces, hes, index as int) ==> curr == (if x == 0 {
                    start as int
                } else {
                    start + k - x
                }),
                forall|y: int|
                    0 <= y < x ==> face_forward(faces, hes, index as int) ==> #[trigger] r@[y] == (
                    if y == 0 {
                        start as int
                    } else {
                        start + y
                    }),
                forall|y: int|
                    0 <= y < x ==> face_backward(faces, hes, index as int) ==> #[trigger] r@[y] == (
                    if y == 0 {
                        start as int
                    } else {
                        start + k - y
                    }),
                forall|y: int|
                    0 <= y < x ==> start <= #[trigger] r@[y] < start + k && hes[r@[y] as int].face
                        == index,
                forall|y: int|
                    0 < y < x ==> #[trigger] r@[y] == hes[r@[y - 1] as int].next,
                x > 0 ==> r@[0] == start,
                x > 0 ==> curr == hes[r@[x - 1] as int].next,
                start <= curr < start + k,
                curr == cycle_handle(faces, hes, index as int, x as int),
                forall|y: int|
                    0 <= y < x ==> #[trigger] r@[y] == cycle_handle(faces, hes, index as int, y),
            decreases k - x,
        {
            proof {
                assert(face_forward(faces, hes, index as int) || face_backward(
                    faces,
                    hes,
                    index as int,
                ));
                assert(hes[curr as int].face == index) by {
                    assert(block_ok_at(faces, nh as int, index as int));
                    assert(hb_start(faces, hes[curr as int].face as int) <= curr < hb_end(
                        faces,
                        nh as int,
                        hes[curr as int].face as int,
                    ));
                    Self::lemma_block_unique(faces, nh as int, hes[curr as int].face as int, index as int, curr as int);
                }
            }
            r.push(curr);
            curr = self.half_edges[curr].next;
            x += 1;
        }
        proof {
            if face_forward(faces, hes, index as int) {
                assert forall|p: int, q: int| 0 <= p < q < r@.len() implies r@[p] != r@[q] by {}
            } else {
                assert forall|p: int, q: int| 0 <= p < q < r@.len() implies r@[p] != r@[q] by {}
            }
        }
        r
    }

    /// Two faces' blocks overlap only when they are the same face.
    proof fn lemma_block_unique(faces: Seq<HeFace>, nh: int, f1: int, f2: int, h: int)
        requires
            blocks_ok(faces, nh),
            0 <= f1 < faces.len(),
            0 <= f2 < faces.len(),
            hb_start(faces, f1) <= h < hb_end(faces, nh, f1),
            hb_start(faces, f2) <= h < hb_end(faces, nh, f2),
        ensures
            f1 == f2,
    {
        if f1 < f2 {
            Self::lemma_blocks_monotone(faces, nh, f1, f2);
        } else if f2 < f1 {
            Self::lemma_blocks_monotone(faces, nh, f2, f1);
        }
    }

    /// Earlier faces' blocks end before later faces' blocks begin.
    proof fn lemma_blocks_monotone(faces: Seq<HeFace>, nh: int, f1: int, f2: int)
        requires
            blocks_ok(faces, nh),
            0 <= f1 < f2 < faces.len(),
        ensures
            hb_end(faces, nh, f1) <= hb_start(faces, f2),
        decreases f2 - f1,
    {
        if f1 + 1 < f2 {
            Self::lemma_blocks_monotone(faces, nh, f1 + 1, f2);
            assert(hb_end(faces, nh, f1) == hb_start(faces, f1 + 1));
            assert(block_ok_at(faces, nh, f1 + 1));
        } else {
            assert(block_ok_at(faces, nh, f1));
        }
    }

    /// Get the vertices used by a face, in cycle order.
    /// Get the vertices used by a face, in cycle order.
    #[verifier::rlimit(100)]
    #[verifier::spinoff_prover]
    pub fn face_vertices(&self, index: usize) -> (r: Vec<usize>)
        requires
            self.wf(),
            index < self.spec_faces().len(),
        ensures
            r@.len() == hb_end(
                self.spec_faces(),
                self.spec_half_edges().len() as int,
                index as int,
            ) - hb_start(self.spec_faces(), index as int),
            forall|x: int|
                0 <= x < r@.len() ==> #[trigger] r@[x] < self.spec_vertices().len(),
            forall|x: int|
                0 <= x < r@.len() ==> #[trigger] r@[x] == self.spec_half_edges()[cycle_handle(
                    self.spec_faces(),
                    self.spec_half_edges(),
                    index as int,
                    x,
                )].origin,
    {
        let handles = self.face_half_edges(index);
        let ghost hs = handles@;
        proof {
            assert(block_ok_at(
                self.spec_faces(),
                self.spec_half_edges().len() as int,
                index as int,
            ));
            assert forall|y: int| 0 <= y < hs.len() implies #[trigger] hs[y]
                < self.spec_half_edges().len() by {}
        }
        let n = handles.len();
        let mut r: Vec<usize> = Vec::new();
        let mut x: usize = 0;
        while x < n
            invariant
                x <= n,
                n == hs.len(),
                handles@ == hs,
                forall|y: int| 0 <= y < hs.len() ==> #[trigger] hs[y] < self.spec_half_edges().len(),
                r@.len() == x,
                forall|y: int|
                    0 <= y < x ==> #[trigger] r@[y] == self.spec_half_edges()[hs[y] as int].origin,
            decreases n - x,
        {
            r.push(self.half_edges[handles[x]].origin);
            x += 1;
        }
        proof {
            assert forall|y: int| 0 <= y < r@.len() implies #[trigger] r@[y]
                < self.spec_vertices().len() && r@[y] == self.spec_half_edges()[cycle_handle(
                self.spec_faces(),
                self.spec_half_edges(),
                index as int,
                y,
            )].origin by {
                assert(r@[y] == self.spec_half_edges()[hs[y] as int].origin);
                assert(hs[y] == cycle_handle(
                    self.spec_faces(),
                    self.spec_half_edges(),
                    index as int,
                    y,
                ));
                assert(self.spec_half_edges()[hs[y] as int].origin < self.spec_vertices().len());
            }
        }
        r
    }

    /// Flip a face: reverse the cycle of its boundary, so that each of its
    /// half-edges runs along the same undirected edge in the opposite
    /// direction; twin links and all other faces are untouched.
    pub fn flip_face(&mut self, index: usize)
        requires
            old(self).wf(),
            index < old(self).spec_faces().len(),
        ensures
            final(self).spec_faces() == old(self).spec_faces(),
            final(self).spec_vertices() == old(self).spec_vertices(),
            final(self).spec_patches() == old(self).spec_patches(),
            final(self).spec_half_edges().len() == old(self).spec_half_edges().len(),
            forall|h: int|
                0 <= h < old(self).spec_half_edges().len() && !(hb_start(
                    old(self).spec_faces(),
                    index as int,
                ) <= h < hb_end(
                    old(self).spec_faces(),
                    old(self).spec_half_edges().len() as int,
                    index as int,
                )) ==> #[trigger] final(self).spec_half_edges()[h] == old(self).spec_half_edges()[h],
            forall|h: int|
                hb_start(old(self).spec_faces(), index as int) <= h < hb_end(
                    old(self).spec_faces(),
                    old(self).spec_half_edges().len() as int,
                    index as int,
                ) ==> (#[trigger] final(self).spec_half_edges()[h]) == (HeHalfEdge {
                    origin: old(self).spec_half_edges()[old(self).spec_half_edges()[
                        h
                    ].next as int].origin,
                    face: old(self).spec_half_edges()[h].face,
                    prev: old(self).spec_half_edges()[h].next,
                    next: old(self).spec_half_edges()[h].prev,
                    twin: old(self).spec_half_edges()[h].twin,
                }),
    {
        let nh = self.half_edges.len();
        let nf = self.faces.len();
        let start = self.faces[index].half_edge;
        let end = if index + 1 < nf {
            self.faces[index + 1].half_edge
        } else {
            nh
        };
        let ghost faces = self.spec_faces();
        let ghost hes0 = old(self).spec_half_edges();
        proof {
            assert(block_ok_at(faces, nh as int, index as int));
            assert(hb_start(faces, index as int) + 3 <= hb_end(faces, nh as int, index as int)
                <= nh);
        }
        let mut replacement: Vec<HeHalfEdge> = Vec::new();
        let mut h = start;
        while h < end
            invariant
                start <= h <= end,
                self.wf(),
                hes0 == self.spec_half_edges(),
                faces == self.spec_faces(),
                nh == hes0.len(),
                index < faces.len(),
                start == hb_start(faces, index as int),
                end == hb_end(faces, nh as int, index as int),
                end <= nh,
                replacement@.len() == h - start,
                forall|y: int|
                    0 <= y < h - start ==> #[trigger] replacement@[y] == (HeHalfEdge {
                        origin: hes0[hes0[start + y].next as int].origin,
                        face: hes0[start + y].face,
                        prev: hes0[start + y].next,
                        next: hes0[start + y].prev,
                        twin: hes0[start + y].twin,
                    }),
            decreases end - h,
        {
            let he = self.half_edges[h];
            proof {
                assert(face_forward(faces, hes0, index as int) || face_backward(
                    faces,
                    hes0,
                    index as int,
                ));
                assert(start <= he.next < end);
            }
            let origin = self.half_edges[he.next].origin;
            replacement.push(
                HeHalfEdge {
                    origin,
                    face: he.face,
                    prev: he.next,
                    next: he.prev,
                    twin: he.twin,
                },
            );
            h += 1;
        }
        let mut h2 = start;
        while h2 < end
            invariant
                start <= h2 <= end,
                end <= nh,
                nh == self.spec_half_edges().len(),
                start == hb_start(faces, index as int),
                replacement@.len() == end - start,
                self.spec_faces() == faces,
                self.spec_vertices() == old(self).spec_vertices(),
                self.spec_patches() == old(self).spec_patches(),
                forall|y: int|
                    0 <= y < end - start ==> #[trigger] replacement@[y] == (HeHalfEdge {
                        origin: hes0[hes0[start + y].next as int].origin,
                        face: hes0[start + y].face,
                        prev: hes0[start + y].next,
                        next: hes0[start + y].prev,
                        twin: hes0[start + y].twin,
                    }),
                forall|x: int|
                    0 <= x < nh && !(start <= x < h2) ==> #[trigger] self.spec_half_edges()[x]
                        == hes0[x],
                forall|x: int|
                    start <= x < h2 ==> #[trigger] self.spec_half_edges()[x] == replacement@[x
                        - start],
            decreases end - h2,
        {
            let value = replacement[h2 - start];
            let slot = he_mut(&mut self.half_edges, h2);
            *slot = value;
            h2 += 1;
        }
    }


    /// In a well-formed mesh every handle a half-edge carries stays in
    /// range.
    proof fn lemma_handles_in_range(self)
        requires
            self.wf(),
        ensures
            forall|h: int|
                0 <= h < self.spec_half_edges().len() ==> (#[trigger] self.spec_half_edges()[
                    h
                ]).next < self.spec_half_edges().len() && self.spec_half_edges()[h].prev
                    < self.spec_half_edges().len() && (self.spec_half_edges()[h].twin is Some
                    ==> self.spec_half_edges()[h].twin->0 < self.spec_half_edges().len()),
    {
        let hes = self.spec_half_edges();
        let faces = self.spec_faces();
        assert forall|h: int| 0 <= h < hes.len() implies (#[trigger] hes[h]).next < hes.len()
            && hes[h].prev < hes.len() && (hes[h].twin is Some ==> hes[h].twin->0
            < hes.len()) by {
            let f = hes[h].face as int;
            assert(block_ok_at(faces, hes.len() as int, f));
            assert(hb_start(faces, f) <= h < hb_end(faces, hes.len() as int, f));
            assert(face_forward(faces, hes, f) || face_backward(faces, hes, f));
        }
    }

    /// The patch id an appended face carries after a merge: an absent patch
    /// stays absent; a patch is remapped to the last patch of the same name
    /// in the merged list.
    pub open spec fn merge_patch(patches: Seq<Seq<u8>>, other: HeMesh, f: int) -> Option<usize> {
        match other.spec_faces()[f].patch {
            None => None,
            Some(p) => Some(last_index_of(patches, other.spec_patches()[p as int]) as usize),
        }
    }

    /// Merge naively with another mesh: the other mesh's vertices, faces and
    /// half-edges are appended with their handles offset by the receiver's
    /// prior counts, and its patches are appended only where their name is
    /// new, faces remapped to the last patch of equal name. Twin links are
    /// not re-established across the seam: each part keeps its own.
    #[verifier::rlimit(100)]
    #[verifier::spinoff_prover]
    pub fn merge(&mut self, other: &HeMesh)
        requires
            old(self).wf(),
            other.wf(),
            old(self).spec_half_edges().len() + other.spec_half_edges().len() <= usize::MAX,
            old(self).spec_vertices().len() + other.spec_vertices().len() <= usize::MAX,
            old(self).spec_faces().len() + other.spec_faces().len() <= usize::MAX,
            forall|v: int|
                0 <= v < other.spec_vertices().len() ==> (#[trigger] other.spec_vertices()[
                    v
                ]).half_edge + old(self).spec_half_edges().len() <= usize::MAX,
        ensures
            final(self).wf(),
            final(self).spec_patches() == merged_patches(
                old(self).spec_patches(),
                other.spec_patches(),
                other.spec_patches().len() as int,
            ),
            final(self).spec_vertices().len() == old(self).spec_vertices().len()
                + other.spec_vertices().len(),
            forall|v: int|
                0 <= v < old(self).spec_vertices().len() ==> #[trigger] final(self).spec_vertices()[
                    v
                ] == old(self).spec_vertices()[v],
            forall|v: int|
                0 <= v < other.spec_vertices().len() ==> #[trigger] final(self).spec_vertices()[
                    old(self).spec_vertices().len() + v
                ] == (HeVertex {
                    origin: other.spec_vertices()[v].origin,
                    half_edge: (other.spec_vertices()[v].half_edge + old(self).spec_half_edges().len()) as usize,
                }),
            final(self).spec_faces().len() == old(self).spec_faces().len()
                + other.spec_faces().len(),
            forall|f: int|
                0 <= f < old(self).spec_faces().len() ==> #[trigger] final(self).spec_faces()[f]
                    == old(self).spec_faces()[f],
            forall|f: int|
                0 <= f < other.spec_faces().len() ==> #[trigger] final(self).spec_faces()[old(self).spec_faces().len() + f] == (HeFace {
                    half_edge: (other.spec_faces()[f].half_edge + old(self).spec_half_edges().len()) as usize,
                    patch: Self::merge_patch(final(self).spec_patches(), *other, f),
                }),
            final(self).spec_half_edges().len() == old(self).spec_half_edges().len()
                + other.spec_half_edges().len(),
            forall|h: int|
                0 <= h < old(self).spec_half_edges().len() ==> #[trigger] final(self).spec_half_edges()[h] == old(self).spec_half_edges()[h],
            forall|h: int|
                0 <= h < other.spec_half_edges().len() ==> #[trigger] final(self).spec_half_edges()[
                    old(self).spec_half_edges().len() + h
                ] == (HeHalfEdge {
                    origin: (other.spec_half_edges()[h].origin + old(self).spec_vertices().len()) as usize,
                    face: (other.spec_half_edges()[h].face + old(self).spec_faces().len()) as usize,
                    prev: (other.spec_half_edges()[h].prev + old(self).spec_half_edges().len()) as usize,
                    next: (other.spec_half_edges()[h].next + old(self).spec_half_edges().len()) as usize,
                    twin: match other.spec_half_edges()[h].twin {
                        None => None,
                        Some(t) => Some((t + old(self).spec_half_edges().len()) as usize),
                    },
                }),
    {
        let ghost p0 = self.spec_patches();
        let ghost bp = other.spec_patches();
        let onp = other.patches.len();
        let mut q: usize = 0;
        while q < onp
            invariant
                q <= onp,
                onp == other.spec_patches().len(),
                self.spec_patches() == merged_patches(p0, bp, q as int),
                bp == other.spec_patches(),
                self.spec_vertices() == old(self).spec_vertices(),
                self.spec_faces() == old(self).spec_faces(),
                self.spec_half_edges() == old(self).spec_half_edges(),
            decreases onp - q,
        {
            let name = &other.patches[q].name;
            let np = self.patches.len();
            let mut found = false;
            let mut x: usize = 0;
            while x < np
                invariant
                    x <= np,
                    np == self.spec_patches().len(),
                    name@ == bp[q as int],
                    found == exists|k: int|
                        0 <= k < x && #[trigger] self.spec_patches()[k] == name@,
                decreases np - x,
            {
                if bytes_eq(&self.patches[x].name, name) {
                    found = true;
                    proof {
                        assert(self.spec_patches()[x as int] == name@);
                    }
                }
                x += 1;
            }
            proof {
                assert(found == contains_name(self.spec_patches(), name@));
            }
            if !found {
                let mut owned: Vec<u8> = Vec::new();
                let mut w: usize = 0;
                while w < name.len()
                    invariant
                        w <= name@.len(),
                        owned@ == name@.subrange(0, w as int),
                    decreases name@.len() - w,
                {
                    owned.push(name[w]);
                    w += 1;
                    proof {
                        assert(owned@ =~= name@.subrange(0, w as int));
                    }
                }
                proof {
                    assert(owned@ =~= name@);
                }
                self.insert_patch(owned);
            }
            q += 1;
        }
        let ghost patches1 = self.spec_patches();
        let nv1 = self.vertices.len();
        let nf1 = self.faces.len();
        let nh1 = self.half_edges.len();
        let onv = other.vertices.len();
        let mut v: usize = 0;
        while v < onv
            invariant
                v <= onv,
                onv == other.spec_vertices().len(),
                nh1 == old(self).spec_half_edges().len(),
                forall|v2: int|
                    0 <= v2 < onv ==> (#[trigger] other.spec_vertices()[v2]).half_edge + nh1
                        <= usize::MAX,
                self.spec_patches() == patches1,
                self.spec_faces() == old(self).spec_faces(),
                self.spec_half_edges() == old(self).spec_half_edges(),
                self.spec_vertices().len() == nv1 + v,
                nv1 == old(self).spec_vertices().len(),
                forall|v2: int|
                    0 <= v2 < nv1 ==> #[trigger] self.spec_vertices()[v2] == old(self).spec_vertices()[v2],
                forall|v2: int|
                    0 <= v2 < v ==> #[trigger] self.spec_vertices()[nv1 + v2] == (HeVertex {
                        origin: other.spec_vertices()[v2].origin,
                        half_edge: (other.spec_vertices()[v2].half_edge + nh1) as usize,
                    }),
            decreases onv - v,
        {
            let vert = other.vertices[v];
            self.vertices.push(HeVertex { origin: vert.origin, half_edge: vert.half_edge + nh1 });
            v += 1;
        }
        let onf = other.faces.len();
        let mut f: usize = 0;
        while f < onf
            invariant
                f <= onf,
                onf == other.spec_faces().len(),
                other.wf(),
                nh1 == old(self).spec_half_edges().len(),
                nh1 + other.spec_half_edges().len() <= usize::MAX,
                self.spec_patches() == patches1,
                patches1 == merged_patches(p0, bp, bp.len() as int),
                bp == other.spec_patches(),
                onv == other.spec_vertices().len(),
                nv1 == old(self).spec_vertices().len(),
                self.spec_vertices().len() == nv1 + onv,
                forall|v2: int|
                    0 <= v2 < nv1 ==> #[trigger] self.spec_vertices()[v2] == old(self).spec_vertices()[v2],
                forall|v2: int|
                    0 <= v2 < onv ==> #[trigger] self.spec_vertices()[nv1 + v2] == (HeVertex {
                        origin: other.spec_vertices()[v2].origin,
                        half_edge: (other.spec_vertices()[v2].half_edge + nh1) as usize,
                    }),
                self.spec_half_edges() == old(self).spec_half_edges(),
                self.spec_faces().len() == nf1 + f,
                nf1 == old(self).spec_faces().len(),
                forall|f2: int|
                    0 <= f2 < nf1 ==> #[trigger] self.spec_faces()[f2] == old(self).spec_faces()[
                        f2
                    ],
                forall|f2: int|
                    0 <= f2 < f ==> #[trigger] self.spec_faces()[nf1 + f2] == (HeFace {
                        half_edge: (other.spec_faces()[f2].half_edge + nh1) as usize,
                        patch: Self::merge_patch(patches1, *other, f2),
                    }),
            decreases onf - f,
        {
            let fc = other.faces[f];
            proof {
                assert(block_ok_at(
                    other.spec_faces(),
                    other.spec_half_edges().len() as int,
                    f as int,
                ));
            }
            let patch: Option<usize> = match fc.patch {
                None => None,
                Some(p) => {
                    let name = &other.patches[p].name;
                    proof {
                        assert(bp[p as int] == name@);
                        lemma_merged_keeps(p0, bp, bp.len() as int, name@);
                    }
                    let np = self.patches.len();
                    let mut idx: usize = 0;
                    let mut found = false;
                    let mut x: usize = np;
                    while x > 0 && !found
                        invariant
                            x <= np,
                            np == self.spec_patches().len(),
                            name@ == other.spec_patches()[p as int],
                            !found ==> forall|k: int|
                                x <= k < np ==> #[trigger] self.spec_patches()[k] != name@,
                            found ==> x < np && idx == x && self.spec_patches()[x as int] == name@
                                && forall|k: int|
                                x < k < np ==> #[trigger] self.spec_patches()[k] != name@,
                        decreases x,
                    {
                        x -= 1;
                        if bytes_eq(&self.patches[x].name, name) {
                            found = true;
                            idx = x;
                        }
                    }
                    proof {
                        assert(contains_name(self.spec_patches(), name@));
                        if !found {
                            let k = choose|k: int|
                                0 <= k < self.spec_patches().len() && self.spec_patches()[k]
                                    == name@;
                            assert(false);
                        }
                        lemma_last_index_at(self.spec_patches(), name@, idx as int);
                    }
                    Some(idx)
                },
            };
            self.faces.push(HeFace { half_edge: fc.half_edge + nh1, patch });
            f += 1;
        }
        let onh = other.half_edges.len();
        proof {
            other.lemma_handles_in_range();
            assert forall|h2: int| 0 <= h2 < onh implies (#[trigger] other.spec_half_edges()[
                h2
            ]).origin < onv && other.spec_half_edges()[h2].face < onf by {}
        }
        let mut h: usize = 0;
        while h < onh
            invariant
                h <= onh,
                onh == other.spec_half_edges().len(),
                other.wf(),
                nh1 == old(self).spec_half_edges().len(),
                nh1 + onh <= usize::MAX,
                nv1 + onv <= usize::MAX,
                nf1 + onf <= usize::MAX,
                onv == other.spec_vertices().len(),
                onf == other.spec_faces().len(),
                nv1 == old(self).spec_vertices().len(),
                nf1 == old(self).spec_faces().len(),
                forall|h2: int|
                    0 <= h2 < onh ==> (#[trigger] other.spec_half_edges()[h2]).next < onh
                        && other.spec_half_edges()[h2].prev < onh && (other.spec_half_edges()[
                        h2
                    ].twin is Some ==> other.spec_half_edges()[h2].twin->0 < onh)
                        && other.spec_half_edges()[h2].origin < onv && other.spec_half_edges()[
                        h2
                    ].face < onf,
                self.spec_patches() == patches1,
                patches1 == merged_patches(p0, bp, bp.len() as int),
                bp == other.spec_patches(),
                self.spec_vertices().len() == nv1 + onv,
                forall|v2: int|
                    0 <= v2 < nv1 ==> #[trigger] self.spec_vertices()[v2] == old(self).spec_vertices()[v2],
                forall|v2: int|
                    0 <= v2 < onv ==> #[trigger] self.spec_vertices()[nv1 + v2] == (HeVertex {
                        origin: other.spec_vertices()[v2].origin,
                        half_edge: (other.spec_vertices()[v2].half_edge + nh1) as usize,
                    }),
                self.spec_faces().len() == nf1 + onf,
                forall|f2: int|
                    0 <= f2 < nf1 ==> #[trigger] self.spec_faces()[f2] == old(self).spec_faces()[
                        f2
                    ],
                forall|f2: int|
                    0 <= f2 < onf ==> #[trigger] self.spec_faces()[nf1 + f2] == (HeFace {
                        half_edge: (other.spec_faces()[f2].half_edge + nh1) as usize,
                        patch: Self::merge_patch(patches1, *other, f2),
                    }),
                self.spec_half_edges().len() == nh1 + h,
                forall|h2: int|
                    0 <= h2 < nh1 ==> #[trigger] self.spec_half_edges()[h2] == old(self).spec_half_edges()[h2],
                forall|h2: int|
                    0 <= h2 < h ==> #[trigger] self.spec_half_edges()[nh1 + h2] == (HeHalfEdge {
                        origin: (other.spec_half_edges()[h2].origin + nv1) as usize,
                        face: (other.spec_half_edges()[h2].face + nf1) as usize,
                        prev: (other.spec_half_edges()[h2].prev + nh1) as usize,
                        next: (other.spec_half_edges()[h2].next + nh1) as usize,
                        twin: match other.spec_half_edges()[h2].twin {
                            None => None,
                            Some(t) => Some((t + nh1) as usize),
                        },
                    }),
            decreases onh - h,
        {
            let he = other.half_edges[h];
            let twin = match he.twin {
                None => None,
                Some(t) => Some(t + nh1),
            };
            self.half_edges.push(
                HeHalfEdge {
                    origin: he.origin + nv1,
                    face: he.face + nf1,
                    prev: he.prev + nh1,
                    next: he.next + nh1,
                    twin,
                },
            );
            h += 1;
        }
        proof {
            Self::lemma_merge_wf(*old(self), *other, *final(self));
        }
    }


    /// The merged-patch list is no shorter than the receiver's.
    proof fn lemma_merged_len(a: Seq<Seq<u8>>, b: Seq<Seq<u8>>, upto: int)
        requires
            0 <= upto,
        ensures
            merged_patches(a, b, upto).len() >= a.len(),
        decreases upto,
    {
        if upto > 0 {
            Self::lemma_merged_len(a, b, upto - 1);
        }
    }

    /// Appending one mesh's records behind another's with offset handles
    /// keeps the mesh well formed.
    #[verifier::rlimit(100)]
    #[verifier::spinoff_prover]
    proof fn lemma_merge_wf(a: HeMesh, b: HeMesh, m: HeMesh)
        requires
            a.wf(),
            b.wf(),
            a.spec_half_edges().len() + b.spec_half_edges().len() <= usize::MAX,
            a.spec_vertices().len() + b.spec_vertices().len() <= usize::MAX,
            a.spec_faces().len() + b.spec_faces().len() <= usize::MAX,
            m.spec_patches() == merged_patches(
                a.spec_patches(),
                b.spec_patches(),
                b.spec_patches().len() as int,
            ),
            m.spec_vertices().len() == a.spec_vertices().len() + b.spec_vertices().len(),
            m.spec_faces().len() == a.spec_faces().len() + b.spec_faces().len(),
            m.spec_half_edges().len() == a.spec_half_edges().len() + b.spec_half_edges().len(),
            forall|f: int|
                0 <= f < a.spec_faces().len() ==> #[trigger] m.spec_faces()[f] == a.spec_faces()[f],
            forall|f: int|
                0 <= f < b.spec_faces().len() ==> #[trigger] m.spec_faces()[a.spec_faces().len()
                    + f] == (HeFace {
                    half_edge: (b.spec_faces()[f].half_edge + a.spec_half_edges().len()) as usize,
                    patch: Self::merge_patch(m.spec_patches(), b, f),
                }),
            forall|h: int|
                0 <= h < a.spec_half_edges().len() ==> #[trigger] m.spec_half_edges()[h]
                    == a.spec_half_edges()[h],
            forall|h: int|
                0 <= h < b.spec_half_edges().len() ==> #[trigger] m.spec_half_edges()[
                    a.spec_half_edges().len() + h
                ] == (HeHalfEdge {
                    origin: (b.spec_half_edges()[h].origin + a.spec_vertices().len()) as usize,
                    face: (b.spec_half_edges()[h].face + a.spec_faces().len()) as usize,
                    prev: (b.spec_half_edges()[h].prev + a.spec_half_edges().len()) as usize,
                    next: (b.spec_half_edges()[h].next + a.spec_half_edges().len()) as usize,
                    twin: match b.spec_half_edges()[h].twin {
                        None => None,
                        Some(t) => Some((t + a.spec_half_edges().len()) as usize),
                    },
                }),
        ensures
            m.wf(),
    {
        let nh1 = a.spec_half_edges().len() as int;
        let nh2 = b.spec_half_edges().len() as int;
        let nf1 = a.spec_faces().len() as int;
        let nf2 = b.spec_faces().len() as int;
        let nv1 = a.spec_vertices().len() as int;
        let nh = nh1 + nh2;
        let fa = a.spec_faces();
        let fb = b.spec_faces();
        let fm = m.spec_faces();
        let ha = a.spec_half_edges();
        let hb = b.spec_half_edges();
        let hm = m.spec_half_edges();
        a.lemma_handles_in_range();
        b.lemma_handles_in_range();
        Self::lemma_merged_len(a.spec_patches(), b.spec_patches(), b.spec_patches().len() as int);
        // block geometry of the merged face table
        assert forall|f: int| 0 <= f < nf1 implies #[trigger] hb_start(fm, f) == hb_start(fa, f)
            && hb_end(fm, nh, f) == hb_end(fa, nh1, f) by {
            assert(fm[f] == fa[f]);
            if f + 1 < nf1 {
                assert(fm[f + 1] == fa[f + 1]);
            } else if nf2 > 0 {
                assert(m.spec_faces()[a.spec_faces().len() + 0int] == (HeFace {
                    half_edge: (b.spec_faces()[0].half_edge + a.spec_half_edges().len()) as usize,
                    patch: Self::merge_patch(m.spec_patches(), b, 0),
                }));
                assert(fb[0].half_edge == 0);
                assert(fm[nf1] == (HeFace {
                    half_edge: (fb[0].half_edge + nh1) as usize,
                    patch: Self::merge_patch(m.spec_patches(), b, 0),
                }));
            } else {
                assert(nh2 == 0);
            }
        }
        assert forall|f: int| 0 <= f < nf2 implies #[trigger] hb_start(fm, nf1 + f) == hb_start(
            fb,
            f,
        ) + nh1 && hb_end(fm, nh, nf1 + f) == hb_end(fb, nh2, f) + nh1 by {
            assert(block_ok_at(fb, nh2, f));
            assert(m.spec_faces()[a.spec_faces().len() + f] == (HeFace {
                half_edge: (b.spec_faces()[f].half_edge + a.spec_half_edges().len()) as usize,
                patch: Self::merge_patch(m.spec_patches(), b, f),
            }));
            assert(block_ok_at(fb, nh2, f));
            assert(fm[nf1 + f].half_edge == fb[f].half_edge + nh1);
            if f + 1 < nf2 {
                let g = f + 1;
                assert(m.spec_faces()[a.spec_faces().len() + g] == (HeFace {
                    half_edge: (b.spec_faces()[g].half_edge + a.spec_half_edges().len()) as usize,
                    patch: Self::merge_patch(m.spec_patches(), b, g),
                }));
                assert(block_ok_at(fb, nh2, g));
                assert(fm[nf1 + g].half_edge == fb[g].half_edge + nh1);
            }
        }
        assert(blocks_ok(fm, nh)) by {
            assert forall|f: int| 0 <= f < fm.len() implies #[trigger] block_ok_at(fm, nh, f) by {
                if f < nf1 {
                    assert(block_ok_at(fa, nh1, f));
                } else {
                    let g = f - nf1;
                    assert(hb_start(fm, nf1 + g) == hb_start(fb, g) + nh1);
                    assert(hb_end(fm, nh, nf1 + g) == hb_end(fb, nh2, g) + nh1);
                    assert(block_ok_at(fb, nh2, g));
                }
            }
            if fm.len() > 0 {
                if nf1 > 0 {
                    assert(fm[0] == fa[0]);
                } else {
                    assert(nh1 == 0);
                    assert(fm[0].half_edge == fb[0].half_edge + 0);
                }
            }
            if fm.len() == 0 {
                assert(nh1 == 0 && nh2 == 0);
            }
        }
        // directions
        assert forall|f: int| 0 <= f < fm.len() implies #[trigger] face_forward(fm, hm, f)
            || face_backward(fm, hm, f) by {
            Self::lemma_merge_dir_at(a, b, m, f);
        }
        // handles in range and in their own blocks
        assert forall|h: int| 0 <= h < nh implies (#[trigger] hm[h]).face < fm.len() && hb_start(
            fm,
            hm[h].face as int,
        ) <= h < hb_end(fm, nh, hm[h].face as int) && hm[h].origin < m.spec_vertices().len() by {
            if h < nh1 {
                assert(hm[h] == ha[h]);
                assert(ha[h].face < nf1);
                assert(hb_start(fa, ha[h].face as int) <= h < hb_end(fa, nh1, ha[h].face as int));
            } else {
                let h2 = h - nh1;
                assert(hm[nh1 + h2].face == hb[h2].face + nf1);
                assert(hb[h2].face < nf2);
                assert(hb_start(fb, hb[h2].face as int) <= h2 < hb_end(
                    fb,
                    nh2,
                    hb[h2].face as int,
                ));
                assert(hb_start(fm, nf1 + hb[h2].face as int) == hb_start(fb, hb[h2].face as int)
                    + nh1);
                assert(hb_end(fm, nh, nf1 + hb[h2].face as int) == hb_end(
                    fb,
                    nh2,
                    hb[h2].face as int,
                ) + nh1);
            }
        }
        // patch ids stay in range
        assert forall|f: int|
            0 <= f < fm.len() && (#[trigger] fm[f].patch) is Some implies fm[f].patch->0
            < m.spec_patches().len() by {
            if f < nf1 {
                assert(fm[f] == fa[f]);
                assert(fa[f].patch->0 < a.spec_patches().len());
            } else {
                let g = f - nf1;
                assert(fm[nf1 + g].patch == Self::merge_patch(m.spec_patches(), b, g));
                if fb[g].patch is Some {
                    let p = fb[g].patch->0 as int;
                    assert(p < b.spec_patches().len());
                    lemma_merged_keeps(
                        a.spec_patches(),
                        b.spec_patches(),
                        b.spec_patches().len() as int,
                        b.spec_patches()[p],
                    );
                    lemma_last_index_of(m.spec_patches(), b.spec_patches()[p]);
                }
            }
        }
        Self::lemma_merge_twins(a, b, m);
    }

    /// One face of the merged mesh keeps its cycle direction.
    #[verifier::rlimit(100)]
    #[verifier::spinoff_prover]
    proof fn lemma_merge_dir_at(a: HeMesh, b: HeMesh, m: HeMesh, f: int)
        requires
            a.wf(),
            b.wf(),
            a.spec_half_edges().len() + b.spec_half_edges().len() <= usize::MAX,
            m.spec_faces().len() == a.spec_faces().len() + b.spec_faces().len(),
            m.spec_half_edges().len() == a.spec_half_edges().len() + b.spec_half_edges().len(),
            0 <= f < m.spec_faces().len(),
            forall|f2: int|
                0 <= f2 < a.spec_faces().len() ==> #[trigger] hb_start(m.spec_faces(), f2)
                    == hb_start(a.spec_faces(), f2) && hb_end(
                    m.spec_faces(),
                    m.spec_half_edges().len() as int,
                    f2,
                ) == hb_end(a.spec_faces(), a.spec_half_edges().len() as int, f2),
            forall|f2: int|
                0 <= f2 < b.spec_faces().len() ==> #[trigger] hb_start(
                    m.spec_faces(),
                    a.spec_faces().len() + f2,
                ) == hb_start(b.spec_faces(), f2) + a.spec_half_edges().len() && hb_end(
                    m.spec_faces(),
                    m.spec_half_edges().len() as int,
                    a.spec_faces().len() + f2,
                ) == hb_end(b.spec_faces(), b.spec_half_edges().len() as int, f2)
                    + a.spec_half_edges().len(),
            forall|h: int|
                0 <= h < a.spec_half_edges().len() ==> (#[trigger] m.spec_half_edges()[h]).next
                    == a.spec_half_edges()[h].next && m.spec_half_edges()[h].prev
                    == a.spec_half_edges()[h].prev,
            forall|h: int|
                0 <= h < b.spec_half_edges().len() ==> (#[trigger] m.spec_half_edges()[
                    a.spec_half_edges().len() + h
                ]).next == b.spec_half_edges()[h].next + a.spec_half_edges().len()
                    && m.spec_half_edges()[a.spec_half_edges().len() + h].prev
                    == b.spec_half_edges()[h].prev + a.spec_half_edges().len(),
        ensures
            face_forward(m.spec_faces(), m.spec_half_edges(), f) || face_backward(
                m.spec_faces(),
                m.spec_half_edges(),
                f,
            ),
    {
        let nh1 = a.spec_half_edges().len() as int;
        let nh2 = b.spec_half_edges().len() as int;
        let nf1 = a.spec_faces().len() as int;
        let nh = nh1 + nh2;
        let fa = a.spec_faces();
        let fb = b.spec_faces();
        let fm = m.spec_faces();
        let ha = a.spec_half_edges();
        let hb = b.spec_half_edges();
        let hm = m.spec_half_edges();
        if f < nf1 {
            assert(block_ok_at(fa, nh1, f));
            if face_forward(fa, ha, f) {
                assert(face_forward(fm, hm, f)) by {
                    assert forall|h: int| hb_start(fm, f) <= h < hb_end(fm, nh, f) implies (
                    #[trigger] hm[h]).next == block_fwd(fm, nh, f, h) && hm[h].prev == block_bwd(
                        fm,
                        nh,
                        f,
                        h,
                    ) by {
                        assert(hm[h].next == ha[h].next && hm[h].prev == ha[h].prev);
                        assert(ha[h].next == block_fwd(fa, nh1, f, h));
                        assert(ha[h].prev == block_bwd(fa, nh1, f, h));
                    }
                }
            } else {
                assert(face_backward(fa, ha, f));
                assert(face_backward(fm, hm, f)) by {
                    assert forall|h: int| hb_start(fm, f) <= h < hb_end(fm, nh, f) implies (
                    #[trigger] hm[h]).next == block_bwd(fm, nh, f, h) && hm[h].prev == block_fwd(
                        fm,
                        nh,
                        f,
                        h,
                    ) by {
                        assert(hm[h].next == ha[h].next && hm[h].prev == ha[h].prev);
                        assert(ha[h].next == block_bwd(fa, nh1, f, h));
                        assert(ha[h].prev == block_fwd(fa, nh1, f, h));
                    }
                }
            }
        } else {
            let g = f - nf1;
            assert(block_ok_at(fb, nh2, g));
            assert(hb_start(fm, nf1 + g) == hb_start(fb, g) + nh1);
            assert(hb_end(fm, nh, nf1 + g) == hb_end(fb, nh2, g) + nh1);
            if face_forward(fb, hb, g) {
                assert(face_forward(fm, hm, f)) by {
                    assert forall|h: int| hb_start(fm, f) <= h < hb_end(fm, nh, f) implies (
                    #[trigger] hm[h]).next == block_fwd(fm, nh, f, h) && hm[h].prev == block_bwd(
                        fm,
                        nh,
                        f,
                        h,
                    ) by {
                        let h2 = h - nh1;
                        assert(hm[nh1 + h2].next == hb[h2].next + nh1);
                        assert(hm[nh1 + h2].prev == hb[h2].prev + nh1);
                        assert(hb[h2].next == block_fwd(fb, nh2, g, h2));
                        assert(hb[h2].prev == block_bwd(fb, nh2, g, h2));
                    }
                }
            } else {
                assert(face_backward(fb, hb, g));
                assert(face_backward(fm, hm, f)) by {
                    assert forall|h: int| hb_start(fm, f) <= h < hb_end(fm, nh, f) implies (
                    #[trigger] hm[h]).next == block_bwd(fm, nh, f, h) && hm[h].prev == block_fwd(
                        fm,
                        nh,
                        f,
                        h,
                    ) by {
                        let h2 = h - nh1;
                        assert(hm[nh1 + h2].next == hb[h2].next + nh1);
                        assert(hm[nh1 + h2].prev == hb[h2].prev + nh1);
                        assert(hb[h2].next == block_bwd(fb, nh2, g, h2));
                        assert(hb[h2].prev == block_fwd(fb, nh2, g, h2));
                    }
                }
            }
        }
    }

    /// Twin symmetry and edge sameness survive appending with offsets.
    #[verifier::rlimit(100)]
    #[verifier::spinoff_prover]
    proof fn lemma_merge_twins(a: HeMesh, b: HeMesh, m: HeMesh)
        requires
            a.wf(),
            b.wf(),
            a.spec_half_edges().len() + b.spec_half_edges().len() <= usize::MAX,
            a.spec_vertices().len() + b.spec_vertices().len() <= usize::MAX,
            m.spec_vertices().len() == a.spec_vertices().len() + b.spec_vertices().len(),
            m.spec_half_edges().len() == a.spec_half_edges().len() + b.spec_half_edges().len(),
            forall|h: int|
                0 <= h < a.spec_half_edges().len() ==> #[trigger] m.spec_half_edges()[h]
                    == a.spec_half_edges()[h],
            forall|h: int|
                0 <= h < b.spec_half_edges().len() ==> #[trigger] m.spec_half_edges()[
                    a.spec_half_edges().len() + h
                ] == (HeHalfEdge {
                    origin: (b.spec_half_edges()[h].origin + a.spec_vertices().len()) as usize,
                    face: (b.spec_half_edges()[h].face + a.spec_faces().len()) as usize,
                    prev: (b.spec_half_edges()[h].prev + a.spec_half_edges().len()) as usize,
                    next: (b.spec_half_edges()[h].next + a.spec_half_edges().len()) as usize,
                    twin: match b.spec_half_edges()[h].twin {
                        None => None,
                        Some(t) => Some((t + a.spec_half_edges().len()) as usize),
                    },
                }),
        ensures
            twins_ok(m.spec_half_edges()),
    {
        let nh1 = a.spec_half_edges().len() as int;
        let nh2 = b.spec_half_edges().len() as int;
        let nv1 = a.spec_vertices().len() as int;
        let nh = nh1 + nh2;
        let ha = a.spec_half_edges();
        let hb = b.spec_half_edges();
        let hm = m.spec_half_edges();
        a.lemma_handles_in_range();
        b.lemma_handles_in_range();
        assert forall|h: int| 0 <= h < nh && (#[trigger] hm[h]).twin is Some implies hm[h].twin->0
            < nh && hm[h].twin->0 != h && hm[hm[h].twin->0 as int].twin == Some(h as usize)
            && uedge(hm, hm[h].twin->0 as int) == uedge(hm, h) by {
            if h < nh1 {
                assert(hm[h] == ha[h]);
                let t = ha[h].twin->0 as int;
                assert(t < nh1 && t != h && ha[t].twin == Some(h as usize));
                assert(hm[t] == ha[t]);
                assert(uedge(hm, h) == uedge(ha, h)) by {
                    assert(hm[ha[h].next as int] == ha[ha[h].next as int]);
                }
                assert(uedge(hm, t) == uedge(ha, t)) by {
                    assert(hm[ha[t].next as int] == ha[ha[t].next as int]);
                }
            } else {
                let h2 = h - nh1;
                assert(hm[nh1 + h2].twin == (match hb[h2].twin {
                    None => None,
                    Some(t) => Some((t + nh1) as usize),
                }));
                let t2 = hb[h2].twin->0 as int;
                assert(t2 < nh2 && t2 != h2 && hb[t2].twin == Some(h2 as usize));
                assert(hm[nh1 + t2].twin == Some((h2 + nh1) as usize));
                assert(uedge(hb, t2) == uedge(hb, h2));
                assert(uedge(hm, nh1 + h2) == ((uedge(hb, h2).0 + nv1) as usize, (uedge(
                    hb,
                    h2,
                ).1 + nv1) as usize)) by {
                    assert(hm[nh1 + h2].next == hb[h2].next + nh1);
                    assert(hm[nh1 + hb[h2].next as int].origin == hb[hb[h2].next as int].origin
                        + nv1);
                }
                assert(uedge(hm, nh1 + t2) == ((uedge(hb, t2).0 + nv1) as usize, (uedge(
                    hb,
                    t2,
                ).1 + nv1) as usize)) by {
                    assert(hm[nh1 + t2].next == hb[t2].next + nh1);
                    assert(hm[nh1 + hb[t2].next as int].origin == hb[hb[t2].next as int].origin
                        + nv1);
                }
            }
        }
        assert(twins_ok(hm));
    }


    /// Extract the listed faces into a fresh mesh: vertices and patches are
    /// inserted in first-seen order, each listed face becomes one face over
    /// the remapped vertex handles, and the twin links of the subset are
    /// rebuilt; a subset in which three faces share one undirected edge is
    /// rejected as non-manifold.
    #[verifier::rlimit(100)]
    #[verifier::spinoff_prover]
    pub fn extract_faces(&self, faces: &[usize]) -> (r: Result<HeMesh, HeMeshError>)
        requires
            self.wf(),
            forall|x: int|
                0 <= x < faces@.len() ==> #[trigger] faces@[x] < self.spec_faces().len(),
        ensures
            r matches Err(e) ==> e == HeMeshError::NonManifold,
            r matches Ok(m) ==> {
                &&& m.wf()
                &&& m.vertex_links()
                &&& m.manifold()
                &&& m.spec_faces().len() == faces@.len()
                &&& forall|x: int|
                    0 <= x < faces@.len() ==> hb_end(
                        m.spec_faces(),
                        m.spec_half_edges().len() as int,
                        x,
                    ) - #[trigger] hb_start(m.spec_faces(), x) == hb_end(
                        self.spec_faces(),
                        self.spec_half_edges().len() as int,
                        faces@[x] as int,
                    ) - hb_start(self.spec_faces(), faces@[x] as int)
                &&& forall|x: int|
                    0 <= x < faces@.len() ==> ((#[trigger] m.spec_faces()[x].patch) is Some
                        <==> self.spec_faces()[faces@[x] as int].patch is Some)
                &&& forall|h: int|
                    0 <= h < m.spec_half_edges().len() ==> ((#[trigger] m.spec_half_edges()[
                        h
                    ]).twin is Some <==> uedge_count(
                        m.spec_half_edges(),
                        uedge(m.spec_half_edges(), h),
                        m.spec_half_edges().len() as int,
                    ) == 2)
            },
    {
        let mut mesh = HeMesh {
            vertices: Vec::new(),
            faces: Vec::new(),
            half_edges: Vec::new(),
            patches: Vec::new(),
        };
        let nv = self.vertices.len();
        let np = self.patches.len();
        let mut vmap: Vec<Option<usize>> = Vec::new();
        let mut w: usize = 0;
        while w < nv
            invariant
                w <= nv,
                vmap@.len() == w,
                forall|k: int| 0 <= k < w ==> (#[trigger] vmap@[k]) is None,
            decreases nv - w,
        {
            vmap.push(None);
            w += 1;
        }
        let mut pmap: Vec<Option<usize>> = Vec::new();
        let mut w2: usize = 0;
        while w2 < np
            invariant
                w2 <= np,
                pmap@.len() == w2,
                forall|k: int| 0 <= k < w2 ==> (#[trigger] pmap@[k]) is None,
            decreases np - w2,
        {
            pmap.push(None);
            w2 += 1;
        }
        let n = faces.len();
        let mut i: usize = 0;
        while i < n
            invariant
                i <= n,
                n == faces@.len(),
                self.wf(),
                nv == self.spec_vertices().len(),
                np == self.spec_patches().len(),
                forall|x: int|
                    0 <= x < faces@.len() ==> #[trigger] faces@[x] < self.spec_faces().len(),
                mesh.wf(),
                vmap@.len() == nv,
                pmap@.len() == np,
                forall|k: int|
                    0 <= k < nv && (#[trigger] vmap@[k]) is Some ==> vmap@[k]->0
                        < mesh.spec_vertices().len(),
                forall|k: int|
                    0 <= k < np && (#[trigger] pmap@[k]) is Some ==> pmap@[k]->0
                        < mesh.spec_patches().len(),
                mesh.spec_faces().len() == i,
                forall|h: int|
                    0 <= h < mesh.spec_half_edges().len() ==> (#[trigger] mesh.spec_half_edges()[
                        h
                    ]).twin is None,
                forall|x: int|
                    0 <= x < i ==> hb_end(
                        mesh.spec_faces(),
                        mesh.spec_half_edges().len() as int,
                        x,
                    ) - #[trigger] hb_start(mesh.spec_faces(), x) == hb_end(
                        self.spec_faces(),
                        self.spec_half_edges().len() as int,
                        faces@[x] as int,
                    ) - hb_start(self.spec_faces(), faces@[x] as int),
                forall|x: int|
                    0 <= x < i ==> ((#[trigger] mesh.spec_faces()[x].patch) is Some
                        <==> self.spec_faces()[faces@[x] as int].patch is Some),
            decreases n - i,
        {
            let fid = faces[i];
            let ring = self.face_vertices(fid);
            let ghost before_faces = mesh.spec_faces();
            let ghost hes_head = mesh.spec_half_edges();
            let k = ring.len();
            proof {
                assert(block_ok_at(
                    self.spec_faces(),
                    self.spec_half_edges().len() as int,
                    fid as int,
                ));
            }
            let mut newring: Vec<usize> = Vec::new();
            let mut y: usize = 0;
            while y < k
                invariant
                    y <= k,
                    k == ring@.len(),
                    self.wf(),
                    nv == self.spec_vertices().len(),
                    forall|z: int| 0 <= z < ring@.len() ==> #[trigger] ring@[z] < nv,
                    mesh.wf(),
                    vmap@.len() == nv,
                    pmap@.len() == np,
                    np == self.spec_patches().len(),
                    forall|kk: int|
                        0 <= kk < nv && (#[trigger] vmap@[kk]) is Some ==> vmap@[kk]->0
                            < mesh.spec_vertices().len(),
                    forall|kk: int|
                        0 <= kk < np && (#[trigger] pmap@[kk]) is Some ==> pmap@[kk]->0
                            < mesh.spec_patches().len(),
                    mesh.spec_faces() == before_faces,
                    mesh.spec_half_edges() == hes_head,
                    forall|h: int|
                        0 <= h < mesh.spec_half_edges().len()
                            ==> (#[trigger] mesh.spec_half_edges()[h]).twin is None,
                    newring@.len() == y,
                    forall|z: int|
                        0 <= z < y ==> #[trigger] newring@[z] < mesh.spec_vertices().len(),
                decreases k - y,
            {
                let ov = ring[y];
                match vmap[ov] {
                    Some(j) => {
                        newring.push(j);
                    },
                    None => {
                        let j = mesh.vertices.len();
                        mesh.insert_vertex(self.vertices[ov].origin);
                        let slot = vslot_mut(&mut vmap, ov);
                        *slot = Some(j);
                        newring.push(j);
                    },
                }
                y += 1;
            }
            let patch: Option<usize> = match self.faces[fid].patch {
                None => None,
                Some(p) => {
                    match pmap[p] {
                        Some(j) => Some(j),
                        None => {
                            let j = mesh.patches.len();
                            let name = &self.patches[p].name;
                            let ghost snap = mesh;
                            let ghost snap_ring = newring@;
                            let ghost snap_vmap = vmap@;
                            let ghost snap_pmap = pmap@;
                            let mut owned: Vec<u8> = Vec::new();
                            let mut c: usize = 0;
                            while c < name.len()
                                invariant
                                    c <= name@.len(),
                                    owned@ == name@.subrange(0, c as int),
                                    mesh == snap,
                                    mesh.spec_half_edges() == hes_head,
                                    mesh.spec_faces() == before_faces,
                                    newring@ == snap_ring,
                                    vmap@ == snap_vmap,
                                    pmap@ == snap_pmap,
                                    j == mesh.spec_patches().len(),
                                decreases name@.len() - c,
                            {
                                owned.push(name[c]);
                                c += 1;
                                proof {
                                    assert(owned@ =~= name@.subrange(0, c as int));
                                }
                            }
                            mesh.insert_patch(owned);
                            let slot = vslot_mut(&mut pmap, p);
                            *slot = Some(j);
                            Some(j)
                        },
                    }
                },
            };
            proof {
                assert(newring@.len() == k);
                assert(k >= 3);
                assert(mesh.spec_faces() == before_faces);
                assert(mesh.spec_half_edges() == hes_head);
                assert(before_faces.len() == i as int);
            }
            let nh_pre = mesh.half_edges.len();
            mesh.insert_face(&newring, patch);
            i += 1;
            proof {
                assert(mesh.spec_faces() == before_faces.push(
                    HeFace { half_edge: nh_pre, patch },
                ));
                assert(mesh.spec_faces().len() == i as int);
                assert(mesh.spec_faces()[i - 1].half_edge == nh_pre);
                assert(mesh.spec_half_edges().len() == nh_pre + newring@.len());
                assert(hb_start(mesh.spec_faces(), i - 1) == mesh.spec_half_edges().len()
                    - newring@.len());
                assert(hb_end(mesh.spec_faces(), mesh.spec_half_edges().len() as int, i - 1)
                    == mesh.spec_half_edges().len());
                assert forall|x: int| 0 <= x < i - 1 implies hb_end(
                    mesh.spec_faces(),
                    mesh.spec_half_edges().len() as int,
                    x,
                ) - #[trigger] hb_start(mesh.spec_faces(), x) == hb_end(
                    self.spec_faces(),
                    self.spec_half_edges().len() as int,
                    faces@[x] as int,
                ) - hb_start(self.spec_faces(), faces@[x] as int) by {
                    assert(hb_start(mesh.spec_faces(), x) == hb_start(before_faces, x));
                    assert(hb_end(
                        mesh.spec_faces(),
                        mesh.spec_half_edges().len() as int,
                        x,
                    ) == hb_end(before_faces, nh_pre as int, x));
                    assert(hb_end(before_faces, nh_pre as int, x) - hb_start(before_faces, x)
                        == hb_end(
                        self.spec_faces(),
                        self.spec_half_edges().len() as int,
                        faces@[x] as int,
                    ) - hb_start(self.spec_faces(), faces@[x] as int));
                }
            }
        }
        let built = mesh.build_links();
        match built {
            Ok(()) => Ok(mesh),
            Err(e) => Err(e),
        }
    }

    /// Extract the faces whose patch id is listed into a fresh mesh.
    pub fn extract_patches(&self, patches: &[usize]) -> (r: Result<HeMesh, HeMeshError>)
        requires
            self.wf(),
        ensures
            r matches Err(e) ==> e == HeMeshError::NonManifold,
            r matches Ok(m) ==> m.wf() && m.vertex_links() && m.manifold(),
    {
        let mut selected: Vec<usize> = Vec::new();
        let nf = self.faces.len();
        let mut f: usize = 0;
        while f < nf
            invariant
                f <= nf,
                self.wf(),
                nf == self.spec_faces().len(),
                forall|x: int|
                    0 <= x < selected@.len() ==> #[trigger] selected@[x]
                        < self.spec_faces().len(),
            decreases nf - f,
        {
            match self.faces[f].patch {
                Some(p) => {
                    let mut x: usize = 0;
                    let mut hit = false;
                    while x < patches.len()
                        invariant
                            x <= patches@.len(),
                        decreases patches@.len() - x,
                    {
                        if patches[x] == p {
                            hit = true;
                        }
                        x += 1;
                    }
                    if hit {
                        selected.push(f);
                    }
                },
                None => {},
            }
            f += 1;
        }
        self.extract_faces(selected.as_slice())
    }

    /// Extract the faces whose patch name is listed into a fresh mesh.
    pub fn extract_patch_names(&self, names: &[Vec<u8>]) -> (r: Result<HeMesh, HeMeshError>)
        requires
            self.wf(),
        ensures
            r matches Err(e) ==> e == HeMeshError::NonManifold,
            r matches Ok(m) ==> m.wf() && m.vertex_links() && m.manifold(),
    {
        let mut patches: Vec<usize> = Vec::new();
        let np = self.patches.len();
        let mut p: usize = 0;
        while p < np
            invariant
                p <= np,
                self.wf(),
                np == self.spec_patches().len(),
            decreases np - p,
        {
            let mut x: usize = 0;
            let mut hit = false;
            while x < names.len()
                invariant
                    x <= names@.len(),
                    p < np,
                    np == self.spec_patches().len(),
                    self.wf(),
                decreases names@.len() - x,
            {
                if bytes_eq(&self.patches[p].name, &names[x]) {
                    hit = true;
                }
                x += 1;
            }
            if hit {
                patches.push(p);
            }
            p += 1;
        }
        self.extract_patches(patches.as_slice())
    }


    /// Whether face `f`'s ring visits vertex `v`.
    pub open spec fn face_has_vertex(self, f: int, v: usize) -> bool {
        exists|x: int|
            0 <= x < hb_end(self.spec_faces(), self.spec_half_edges().len() as int, f) - hb_start(
                self.spec_faces(),
                f,
            ) && (#[trigger] self.spec_half_edges()[cycle_handle(
                self.spec_faces(),
                self.spec_half_edges(),
                f,
                x,
            )]).origin == v
    }

    /// Get the vertices shared between two faces, in the order the second
    /// face's ring visits them.
    pub fn shared_vertices(&self, i: usize, j: usize) -> (r: Vec<usize>)
        requires
            self.wf(),
            i < self.spec_faces().len(),
            j < self.spec_faces().len(),
        ensures
            forall|x: int|
                0 <= x < r@.len() ==> self.face_has_vertex(i as int, #[trigger] r@[x])
                    && self.face_has_vertex(j as int, r@[x]),
    {
        let fvi = self.face_vertices(i);
        let fvj = self.face_vertices(j);
        let mut r: Vec<usize> = Vec::new();
        let mut x: usize = 0;
        while x < fvj.len()
            invariant
                x <= fvj@.len(),
                self.wf(),
                i < self.spec_faces().len(),
                j < self.spec_faces().len(),
                fvi@.len() == hb_end(
                    self.spec_faces(),
                    self.spec_half_edges().len() as int,
                    i as int,
                ) - hb_start(self.spec_faces(), i as int),
                fvj@.len() == hb_end(
                    self.spec_faces(),
                    self.spec_half_edges().len() as int,
                    j as int,
                ) - hb_start(self.spec_faces(), j as int),
                forall|y: int|
                    0 <= y < fvi@.len() ==> #[trigger] fvi@[y] == self.spec_half_edges()[
                        cycle_handle(
                            self.spec_faces(),
                            self.spec_half_edges(),
                            i as int,
                            y,
                        )
                    ].origin,
                forall|y: int|
                    0 <= y < fvj@.len() ==> #[trigger] fvj@[y] == self.spec_half_edges()[
                        cycle_handle(
                            self.spec_faces(),
                            self.spec_half_edges(),
                            j as int,
                            y,
                        )
                    ].origin,
                forall|y: int|
                    0 <= y < r@.len() ==> self.face_has_vertex(i as int, #[trigger] r@[y])
                        && self.face_has_vertex(j as int, r@[y]),
            decreases fvj@.len() - x,
        {
            let v = fvj[x];
            let mut hit = false;
            let ghost mut wit: int = 0;
            let mut y: usize = 0;
            while y < fvi.len()
                invariant
                    y <= fvi@.len(),
                    forall|z: int|
                        0 <= z < fvi@.len() ==> #[trigger] fvi@[z] == self.spec_half_edges()[
                            cycle_handle(
                                self.spec_faces(),
                                self.spec_half_edges(),
                                i as int,
                                z,
                            )
                        ].origin,
                    hit ==> 0 <= wit < fvi@.len() && fvi@[wit] == v,
                decreases fvi@.len() - y,
            {
                if fvi[y] == v {
                    hit = true;
                    proof {
                        wit = y as int;
                    }
                }
                y += 1;
            }
            if hit {
                proof {
                    assert(self.spec_half_edges()[cycle_handle(
                        self.spec_faces(),
                        self.spec_half_edges(),
                        i as int,
                        wit,
                    )].origin == v);
                    assert(self.face_has_vertex(i as int, v));
                    assert(self.spec_half_edges()[cycle_handle(
                        self.spec_faces(),
                        self.spec_half_edges(),
                        j as int,
                        x as int,
                    )].origin == v);
                    assert(self.face_has_vertex(j as int, v));
                }
                r.push(v);
            }
            x += 1;
        }
        r
    }

    /// Law: following `next` and then `prev` comes back to the same
    /// half-edge, and so does `prev` then `next`.
    pub proof fn lemma_next_prev_inverse(self, h: int)
        requires
            self.wf(),
            0 <= h < self.spec_half_edges().len(),
        ensures
            self.spec_half_edges()[self.spec_half_edges()[h].next as int].prev == h,
            self.spec_half_edges()[self.spec_half_edges()[h].prev as int].next == h,
    {
        let faces = self.spec_faces();
        let hes = self.spec_half_edges();
        let nh = hes.len() as int;
        let f = hes[h].face as int;
        assert(hb_start(faces, f) <= h < hb_end(faces, nh, f));
        assert(block_ok_at(faces, nh, f));
        assert(face_forward(faces, hes, f) || face_backward(faces, hes, f));
    }

    /// Law: after construction, the half-edge recorded on a vertex that any
    /// half-edge originates at is itself outgoing from that vertex.
    pub proof fn lemma_vertex_half_edge_origin(self, v: int)
        requires
            self.wf(),
            self.vertex_links(),
            0 <= v < self.spec_vertices().len(),
            self.vertex_used(v),
        ensures
            self.spec_half_edges()[self.spec_vertices()[v].half_edge as int].origin == v,
    {
    }

    /// Law: on a consistently oriented mesh, the twin of a twin is the
    /// half-edge itself, and a twin originates at the head of its partner:
    /// the two run along the same undirected edge in opposite directions.
    pub proof fn lemma_twin_opposite(self, h: int)
        requires
            self.wf(),
            self.spec_is_consistent(),
            0 <= h < self.spec_half_edges().len(),
            self.spec_half_edges()[h].twin is Some,
        ensures
            self.spec_half_edges()[self.spec_half_edges()[h].twin->0 as int].twin == Some(
                h as usize,
            ),
            self.spec_half_edges()[self.spec_half_edges()[h].twin->0 as int].origin
                == self.spec_half_edges()[self.spec_half_edges()[h].next as int].origin,
    {
        let hes = self.spec_half_edges();
        let t = hes[h].twin->0 as int;
        assert(uedge(hes, t) == uedge(hes, h));
        assert(hes[t].origin != hes[h].origin);
        let f = hes[h].face as int;
        assert(block_ok_at(self.spec_faces(), hes.len() as int, f));
        assert(hb_start(self.spec_faces(), f) <= h < hb_end(
            self.spec_faces(),
            hes.len() as int,
            f,
        ));
        assert(face_forward(self.spec_faces(), hes, f) || face_backward(
            self.spec_faces(),
            hes,
            f,
        ));
        assert(hes[h].next < hes.len());
        let ft = hes[t].face as int;
        assert(block_ok_at(self.spec_faces(), hes.len() as int, ft));
        assert(hb_start(self.spec_faces(), ft) <= t < hb_end(
            self.spec_faces(),
            hes.len() as int,
            ft,
        ));
        assert(face_forward(self.spec_faces(), hes, ft) || face_backward(
            self.spec_faces(),
            hes,
            ft,
        ));
        assert(hes[t].next < hes.len());
    }
    /// Get a borrowed reference to a patch by index.
    pub fn patch(&self, index: usize) -> (r: &HePatch)
        requires
            index < self.spec_patches().len(),
        ensures
            r.name@ == self.spec_patches()[index as int],
    {
        &self.patches[index]
    }
}

/// Borrow one half-edge of the table mutably.
fn he_mut(hes: &mut Vec<HeHalfEdge>, i: usize) -> (r: &mut HeHalfEdge)
    requires
        i < old(hes)@.len(),
    ensures
        *r == old(hes)@[i as int],
        final(hes)@ == old(hes)@.update(i as int, *final(r)),
{
    &mut hes[i]
}

/// Borrow one vertex of the table mutably.
fn vertex_mut(vs: &mut Vec<HeVertex>, i: usize) -> (r: &mut HeVertex)
    requires
        i < old(vs)@.len(),
    ensures
        *r == old(vs)@[i as int],
        final(vs)@ == old(vs)@.update(i as int, *final(r)),
{
    &mut vs[i]
}

/// Borrow one bucket of an edge table mutably.
fn bucket_mut(bs: &mut Vec<Vec<(usize, usize)>>, i: usize) -> (r: &mut Vec<(usize, usize)>)
    requires
        i < old(bs)@.len(),
    ensures
        *r == old(bs)@[i as int],
        final(bs)@ == old(bs)@.update(i as int, *final(r)),
{
    &mut bs[i]
}

/// How many of the first `upto` entries of an edge-table bucket carry the
/// second vertex `b`.
pub open spec fn bucket_count(entries: Seq<(usize, usize)>, b: usize, upto: int) -> nat
    decreases upto,
{
    if upto <= 0 {
        0
    } else {
        bucket_count(entries, b, upto - 1) + if entries[upto - 1].0 == b {
            1nat
        } else {
            0nat
        }
    }
}

/// A half-edge running along `e` makes the count of `e` positive.
proof fn lemma_uedge_count_member(hes: Seq<HeHalfEdge>, e: (usize, usize), h: int, upto: int)
    requires
        0 <= h < upto <= hes.len(),
        uedge(hes, h) == e,
    ensures
        uedge_count(hes, e, upto) >= 1,
    decreases upto,
{
    if h < upto - 1 {
        lemma_uedge_count_member(hes, e, h, upto - 1);
    }
}

/// Two half-edges running along `e` make the count of `e` at least two.
proof fn lemma_uedge_count_two(hes: Seq<HeHalfEdge>, e: (usize, usize), h1: int, h2: int, upto: int)
    requires
        0 <= h1 < h2 < upto <= hes.len(),
        uedge(hes, h1) == e,
        uedge(hes, h2) == e,
    ensures
        uedge_count(hes, e, upto) >= 2,
    decreases upto,
{
    if h2 < upto - 1 {
        lemma_uedge_count_two(hes, e, h1, h2, upto - 1);
    } else {
        lemma_uedge_count_member(hes, e, h1, upto - 1);
    }
}

/// Counts only grow as more half-edges are taken in.
proof fn lemma_uedge_count_monotone(hes: Seq<HeHalfEdge>, e: (usize, usize), a: int, b: int)
    requires
        0 <= a <= b <= hes.len(),
    ensures
        uedge_count(hes, e, a) <= uedge_count(hes, e, b),
    decreases b,
{
    if a < b {
        lemma_uedge_count_monotone(hes, e, a, b - 1);
    }
}

/// Twinning two so far unpaired half-edges on the same undirected edge
/// keeps the twin discipline.
#[verifier::spinoff_prover]
proof fn lemma_pair_twins(
    h0: Seq<HeHalfEdge>,
    h1: Seq<HeHalfEdge>,
    i: int,
    other: int,
    e: (usize, usize),
)
    requires
        h0.len() == h1.len(),
        h0.len() <= usize::MAX,
        0 <= other < i < h0.len(),
        twins_ok(h0),
        uedge(h0, i) == e,
        uedge(h0, other) == e,
        h0[other].twin is None,
        forall|h: int| i <= h < h0.len() ==> (#[trigger] h0[h]).twin is None,
        h1[i].twin == Some(other as usize),
        h1[other].twin == Some(i as usize),
        forall|h: int|
            0 <= h < h0.len() && h != i && h != other ==> (#[trigger] h1[h]).twin == h0[h].twin,
        forall|h: int| 0 <= h < h0.len() ==> uedge(h1, h) == uedge(h0, h),
    ensures
        twins_ok(h1),
{
    let nh = h0.len() as int;
    assert forall|h: int| 0 <= h < nh && (#[trigger] h1[h]).twin is Some implies h1[h].twin->0 < nh
        && h1[h].twin->0 != h && h1[h1[h].twin->0 as int].twin == Some(h as usize) && uedge(
        h1,
        h1[h].twin->0 as int,
    ) == uedge(h1, h) by {
        if h == i {
            assert(h1[h].twin->0 == other as usize);
            assert(h1[other].twin == Some(i as usize));
            assert(uedge(h1, other) == uedge(h0, other) && uedge(h1, i) == uedge(h0, i));
        } else if h == other {
            assert(h1[h].twin->0 == i as usize);
            assert(h1[i].twin == Some(other as usize));
            assert(uedge(h1, other) == uedge(h0, other) && uedge(h1, i) == uedge(h0, i));
        } else {
            assert(h1[h].twin == h0[h].twin);
            assert(h0[h].twin is Some);
            let t = h0[h].twin->0 as int;
            assert(h0[t].twin == Some(h as usize) && t < nh && t != h && uedge(h0, t) == uedge(
                h0,
                h,
            ));
            if t == i {
                assert(h0[i].twin is None);
                assert(false);
            }
            if t == other {
                assert(false);
            }
            assert(h1[t].twin == h0[t].twin);
            assert(uedge(h1, t) == uedge(h0, t) && uedge(h1, h) == uedge(h0, h));
        }
    }
}

/// A change that keeps every half-edge's `next` and `prev` keeps each face
/// cycle running in its direction.
#[verifier::spinoff_prover]
proof fn lemma_dirs_preserved(faces: Seq<HeFace>, h0: Seq<HeHalfEdge>, h1: Seq<HeHalfEdge>)
    requires
        h0.len() == h1.len(),
        blocks_ok(faces, h0.len() as int),
        forall|h: int|
            0 <= h < h0.len() ==> (#[trigger] h1[h]).next == h0[h].next && h1[h].prev
                == h0[h].prev,
        forall|f: int|
            0 <= f < faces.len() ==> #[trigger] face_forward(faces, h0, f) || face_backward(
                faces,
                h0,
                f,
            ),
    ensures
        forall|f: int|
            0 <= f < faces.len() ==> #[trigger] face_forward(faces, h1, f) || face_backward(
                faces,
                h1,
                f,
            ),
{
    let nh = h0.len() as int;
    assert forall|f: int| 0 <= f < faces.len() implies #[trigger] face_forward(faces, h1, f)
        || face_backward(faces, h1, f) by {
        assert(block_ok_at(faces, nh, f));
        if face_forward(faces, h0, f) {
            assert forall|h: int| hb_start(faces, f) <= h < hb_end(faces, nh, f) implies (
            #[trigger] h1[h]).next == block_fwd(faces, nh, f, h) && h1[h].prev == block_bwd(
                faces,
                nh,
                f,
                h,
            ) by {
                assert(h0[h].next == block_fwd(faces, nh, f, h));
            }
        } else {
            assert(face_backward(faces, h0, f));
            assert forall|h: int| hb_start(faces, f) <= h < hb_end(faces, nh, f) implies (
            #[trigger] h1[h]).next == block_bwd(faces, nh, f, h) && h1[h].prev == block_fwd(
                faces,
                nh,
                f,
                h,
            ) by {
                assert(h0[h].next == block_bwd(faces, nh, f, h));
            }
        }
    }
}

/// Counts look only at the origins and successors of the half-edges taken
/// in, so twin assignments leave them alone.
proof fn lemma_uedge_count_stable(h1: Seq<HeHalfEdge>, h2: Seq<HeHalfEdge>, e: (usize, usize), upto: int)
    requires
        h1.len() == h2.len(),
        0 <= upto <= h1.len(),
        forall|h: int|
            0 <= h < h1.len() ==> (#[trigger] h2[h]).origin == h1[h].origin && h2[h].next
                == h1[h].next && h1[h].next < h1.len(),
    ensures
        uedge_count(h2, e, upto) == uedge_count(h1, e, upto),
        forall|h: int| 0 <= h < upto ==> uedge(h2, h) == uedge(h1, h),
    decreases upto,
{
    assert forall|h: int| 0 <= h < h1.len() implies uedge(h2, h) == uedge(h1, h) by {
        assert(h2[h].origin == h1[h].origin);
        let nx = h1[h].next as int;
        assert(h2[nx].origin == h1[nx].origin);
    }
    if upto > 0 {
        lemma_uedge_count_stable(h1, h2, e, upto - 1);
    }
}

impl HeMesh {
    /// Insert a vertex with a placeholder half-edge link.
    fn insert_vertex(&mut self, origin: Vector3)
        ensures
            final(self).spec_vertices() == old(self).spec_vertices().push(
                HeVertex { origin, half_edge: 0 },
            ),
            final(self).spec_faces() == old(self).spec_faces(),
            final(self).spec_half_edges() == old(self).spec_half_edges(),
            final(self).spec_patches() == old(self).spec_patches(),
            old(self).wf() ==> final(self).wf(),
    {
        self.vertices.push(HeVertex { origin, half_edge: 0 });
        proof {
            if old(self).wf() {
                assert forall|h: int|
                    0 <= h < final(self).spec_half_edges().len() implies (#[trigger] final(self).spec_half_edges()[h]).origin < final(self).spec_vertices().len() by {
                    assert(old(self).spec_half_edges()[h].origin < old(self).spec_vertices().len());
                }
            }
        }
    }

    /// Insert a patch.
    fn insert_patch(&mut self, name: Vec<u8>)
        ensures
            final(self).spec_patches() == old(self).spec_patches().push(name@),
            final(self).spec_vertices() == old(self).spec_vertices(),
            final(self).spec_faces() == old(self).spec_faces(),
            final(self).spec_half_edges() == old(self).spec_half_edges(),
            old(self).wf() ==> final(self).wf(),
    {
        let ghost n = name@;
        self.patches.push(HePatch { name });
        proof {
            assert(final(self).spec_patches() =~= old(self).spec_patches().push(n));
            if old(self).wf() {
                assert forall|f: int|
                    0 <= f < final(self).spec_faces().len() && (#[trigger] final(self).spec_faces()[f].patch) is Some implies final(self).spec_faces()[f].patch->0
                    < final(self).spec_patches().len() by {
                    assert(old(self).spec_faces()[f].patch->0 < old(self).spec_patches().len());
                }
            }
        }
    }

    /// Insert a face and the block of half-edges running around it, linked
    /// forward in the order the vertices are given.
    fn insert_face(&mut self, vertices: &Vec<usize>, patch: Option<usize>)
        requires
            old(self).wf(),
            vertices@.len() >= 3,
            forall|i: int|
                0 <= i < vertices@.len() ==> #[trigger] vertices@[i] < old(self).spec_vertices().len(),
            patch is Some ==> patch->0 < old(self).spec_patches().len(),
            forall|h: int|
                0 <= h < old(self).spec_half_edges().len() ==> (#[trigger] old(self).spec_half_edges()[h]).twin is None,
        ensures
            final(self).wf(),
            final(self).spec_vertices() == old(self).spec_vertices(),
            final(self).spec_patches() == old(self).spec_patches(),
            final(self).spec_faces() == old(self).spec_faces().push(
                HeFace { half_edge: old(self).spec_half_edges().len() as usize, patch },
            ),
            final(self).spec_half_edges().len() == old(self).spec_half_edges().len()
                + vertices@.len(),
            forall|h: int|
                0 <= h < old(self).spec_half_edges().len()
                    ==> #[trigger] final(self).spec_half_edges()[h] == old(self).spec_half_edges()[h],
            forall|h: int|
                0 <= h < final(self).spec_half_edges().len()
                    ==> (#[trigger] final(self).spec_half_edges()[h]).twin is None,
            forall|y: int|
                0 <= y < vertices@.len() ==> (#[trigger] final(self).spec_half_edges()[old(self).spec_half_edges().len() + y]).origin == vertices@[y] && final(self).spec_half_edges()[old(self).spec_half_edges().len() + y].face == old(self).spec_faces().len(),
            face_forward(
                final(self).spec_faces(),
                final(self).spec_half_edges(),
                old(self).spec_faces().len() as int,
            ),
            forall|f: int|
                0 <= f < old(self).spec_faces().len() ==> #[trigger] hb_start(
                    final(self).spec_faces(),
                    f,
                ) == hb_start(old(self).spec_faces(), f) && hb_end(
                    final(self).spec_faces(),
                    final(self).spec_half_edges().len() as int,
                    f,
                ) == hb_end(
                    old(self).spec_faces(),
                    old(self).spec_half_edges().len() as int,
                    f,
                ),
            forall|f: int|
                0 <= f < old(self).spec_faces().len() && face_forward(
                    old(self).spec_faces(),
                    old(self).spec_half_edges(),
                    f,
                ) ==> #[trigger] face_forward(
                    final(self).spec_faces(),
                    final(self).spec_half_edges(),
                    f,
                ),
    {
        let nh = self.half_edges.len();
        let face_id = self.faces.len();
        let k = vertices.len();
        self.faces.push(HeFace { half_edge: nh, patch });
        let mut i: usize = 0;
        while i < k
            invariant
                i <= k,
                k == vertices@.len(),
                nh == old(self).spec_half_edges().len(),
                self.spec_half_edges().len() == nh + i,
                forall|x: int|
                    0 <= x < vertices@.len() ==> #[trigger] vertices@[x] < old(self).spec_vertices().len(),
                self.spec_vertices() == old(self).spec_vertices(),
                self.spec_faces() == old(self).spec_faces().push(
                    HeFace { half_edge: nh, patch },
                ),
                self.spec_patches() == old(self).spec_patches(),
                forall|h: int|
                    0 <= h < nh ==> #[trigger] self.spec_half_edges()[h] == old(self).spec_half_edges()[h],
                forall|x: int|
                    0 <= x < i ==> #[trigger] self.spec_half_edges()[nh + x] == (HeHalfEdge {
                        origin: vertices@[x],
                        face: face_id,
                        prev: 0,
                        next: 0,
                        twin: None,
                    }),
            decreases k - i,
        {
            self.half_edges.push(
                HeHalfEdge { origin: vertices[i], face: face_id, prev: 0, next: 0, twin: None },
            );
            i += 1;
        }
        let end = self.half_edges.len();
        let mut x: usize = 0;
        while x < k
            invariant
                x <= k,
                k == vertices@.len(),
                k >= 3,
                nh == old(self).spec_half_edges().len(),
                end == nh + k,
                end == self.spec_half_edges().len(),
                end <= usize::MAX,
                face_id == old(self).spec_faces().len(),
                forall|y: int|
                    0 <= y < vertices@.len() ==> #[trigger] vertices@[y] < old(self).spec_vertices().len(),
                self.spec_vertices() == old(self).spec_vertices(),
                self.spec_faces() == old(self).spec_faces().push(
                    HeFace { half_edge: nh, patch },
                ),
                self.spec_patches() == old(self).spec_patches(),
                forall|h: int|
                    0 <= h < nh ==> #[trigger] self.spec_half_edges()[h] == old(self).spec_half_edges()[h],
                forall|y: int|
                    0 <= y < k ==> (#[trigger] self.spec_half_edges()[nh + y]).origin
                        == vertices@[y] && self.spec_half_edges()[nh + y].face == face_id
                        && self.spec_half_edges()[nh + y].twin is None,
                forall|y: int|
                    0 <= y < x ==> (#[trigger] self.spec_half_edges()[nh + y]).prev == (if y == 0 {
                        nh + k - 1
                    } else {
                        nh + y - 1
                    }) && self.spec_half_edges()[nh + y].next == (if y + 1 == k {
                        nh as int
                    } else {
                        nh + y + 1
                    }),
            decreases k - x,
        {
            let idx = nh + x;
            let prev = if x == 0 {
                end - 1
            } else {
                idx - 1
            };
            let next = if x + 1 == k {
                nh
            } else {
                idx + 1
            };
            let he = he_mut(&mut self.half_edges, idx);
            he.prev = prev;
            he.next = next;
            x += 1;
        }
        proof {
            Self::lemma_insert_face_wf(*old(self), *final(self), vertices@, patch);
        }
    }

    /// Appending one forward-linked block of at least three half-edges and
    /// its face keeps the mesh well formed.
    #[verifier::rlimit(100)]
    #[verifier::spinoff_prover]
    proof fn lemma_insert_face_wf(
        pre: HeMesh,
        post: HeMesh,
        vertices: Seq<usize>,
        patch: Option<usize>,
    )
        requires
            pre.wf(),
            vertices.len() >= 3,
            forall|i: int| 0 <= i < vertices.len() ==> #[trigger] vertices[i] < pre.spec_vertices().len(),
            patch is Some ==> patch->0 < pre.spec_patches().len(),
            forall|h: int|
                0 <= h < pre.spec_half_edges().len() ==> (#[trigger] pre.spec_half_edges()[h]).twin is None,
            post.spec_vertices() == pre.spec_vertices(),
            post.spec_patches() == pre.spec_patches(),
            post.spec_faces() == pre.spec_faces().push(
                HeFace { half_edge: pre.spec_half_edges().len() as usize, patch },
            ),
            post.spec_half_edges().len() == pre.spec_half_edges().len() + vertices.len(),
            pre.spec_half_edges().len() + vertices.len() <= usize::MAX,
            forall|h: int|
                0 <= h < pre.spec_half_edges().len() ==> #[trigger] post.spec_half_edges()[h]
                    == pre.spec_half_edges()[h],
            forall|y: int|
                0 <= y < vertices.len() ==> (#[trigger] post.spec_half_edges()[
                    pre.spec_half_edges().len() + y
                ]).origin == vertices[y] && post.spec_half_edges()[pre.spec_half_edges().len()
                    + y].face == pre.spec_faces().len() && post.spec_half_edges()[
                    pre.spec_half_edges().len() + y
                ].twin is None && post.spec_half_edges()[pre.spec_half_edges().len() + y].prev == (
                if y == 0 {
                    pre.spec_half_edges().len() + vertices.len() - 1
                } else {
                    pre.spec_half_edges().len() + y - 1
                }) && post.spec_half_edges()[pre.spec_half_edges().len() + y].next == (if y + 1
                    == vertices.len() {
                    pre.spec_half_edges().len() as int
                } else {
                    pre.spec_half_edges().len() + y + 1
                }),
        ensures
            post.wf(),
            face_forward(post.spec_faces(), post.spec_half_edges(), pre.spec_faces().len() as int),
            forall|h: int|
                0 <= h < post.spec_half_edges().len() ==> (#[trigger] post.spec_half_edges()[
                    h
                ]).twin is None,
            forall|f: int|
                0 <= f < pre.spec_faces().len() ==> #[trigger] hb_start(post.spec_faces(), f)
                    == hb_start(pre.spec_faces(), f) && hb_end(
                    post.spec_faces(),
                    post.spec_half_edges().len() as int,
                    f,
                ) == hb_end(pre.spec_faces(), pre.spec_half_edges().len() as int, f),
            forall|f: int|
                0 <= f < pre.spec_faces().len() && face_forward(
                    pre.spec_faces(),
                    pre.spec_half_edges(),
                    f,
                ) ==> #[trigger] face_forward(post.spec_faces(), post.spec_half_edges(), f),
    {
        let faces0 = pre.spec_faces();
        let faces1 = post.spec_faces();
        let hes0 = pre.spec_half_edges();
        let hes1 = post.spec_half_edges();
        let nh0 = hes0.len() as int;
        let nh1 = hes1.len() as int;
        let nf0 = faces0.len() as int;
        let k = vertices.len() as int;
        assert forall|f: int| 0 <= f < nf0 implies hb_start(faces1, f) == hb_start(faces0, f)
            && hb_end(faces1, nh1, f) == hb_end(faces0, nh0, f) by {
            assert(faces1[f] == faces0[f]);
            if f + 1 < nf0 {
                assert(faces1[f + 1] == faces0[f + 1]);
            }
        }
        assert(blocks_ok(faces1, nh1)) by {
            assert forall|f: int| 0 <= f < faces1.len() implies #[trigger] block_ok_at(
                faces1,
                nh1,
                f,
            ) by {
                if f < nf0 {
                    assert(block_ok_at(faces0, nh0, f));
                } else {
                    assert(hb_start(faces1, f) == nh0);
                    assert(hb_end(faces1, nh1, f) == nh1);
                }
            }
            if faces1.len() > 0 {
                if nf0 > 0 {
                    assert(faces1[0] == faces0[0]);
                } else {
                    assert(faces1[0].half_edge == 0);
                }
            }
        }
        assert(face_forward(faces1, hes1, nf0)) by {
            assert(hb_start(faces1, nf0) == nh0);
            assert(hb_end(faces1, nh1, nf0) == nh1);
            assert forall|h: int| nh0 <= h < nh1 implies (#[trigger] hes1[h]).next == block_fwd(
                faces1,
                nh1,
                nf0,
                h,
            ) && hes1[h].prev == block_bwd(faces1, nh1, nf0, h) by {
                let y = h - nh0;
                assert(hes1[nh0 + y].next == (if y + 1 == k {
                    nh0
                } else {
                    nh0 + y + 1
                }));
                assert(hes1[nh0 + y].prev == (if y == 0 {
                    nh0 + k - 1
                } else {
                    nh0 + y - 1
                }));
            }
        }
        assert forall|f: int| 0 <= f < faces1.len() implies #[trigger] face_forward(
            faces1,
            hes1,
            f,
        ) || face_backward(faces1, hes1, f) by {
            if f < nf0 {
                assert(block_ok_at(faces0, nh0, f));
                assert(face_forward(faces0, hes0, f) || face_backward(faces0, hes0, f));
                if face_forward(faces0, hes0, f) {
                    assert(face_forward(faces1, hes1, f)) by {
                        assert forall|h: int|
                            hb_start(faces1, f) <= h < hb_end(faces1, nh1, f) implies (
                        #[trigger] hes1[h]).next == block_fwd(faces1, nh1, f, h) && hes1[h].prev
                            == block_bwd(faces1, nh1, f, h) by {
                            assert(hes1[h] == hes0[h]);
                            assert(hes0[h].next == block_fwd(faces0, nh0, f, h));
                            assert(hes0[h].prev == block_bwd(faces0, nh0, f, h));
                        }
                    }
                } else {
                    assert(face_backward(faces1, hes1, f)) by {
                        assert forall|h: int|
                            hb_start(faces1, f) <= h < hb_end(faces1, nh1, f) implies (
                        #[trigger] hes1[h]).next == block_bwd(faces1, nh1, f, h) && hes1[h].prev
                            == block_fwd(faces1, nh1, f, h) by {
                            assert(hes1[h] == hes0[h]);
                            assert(hes0[h].next == block_bwd(faces0, nh0, f, h));
                            assert(hes0[h].prev == block_fwd(faces0, nh0, f, h));
                        }
                    }
                }
            } else {
                assert(face_forward(faces1, hes1, nf0));
            }
        }
        assert forall|f: int|
            0 <= f < pre.spec_faces().len() && face_forward(faces0, hes0, f) implies
            #[trigger] face_forward(faces1, hes1, f) by {
            assert(block_ok_at(faces0, nh0, f));
            assert forall|h: int| hb_start(faces1, f) <= h < hb_end(faces1, nh1, f) implies (
            #[trigger] hes1[h]).next == block_fwd(faces1, nh1, f, h) && hes1[h].prev == block_bwd(
                faces1,
                nh1,
                f,
                h,
            ) by {
                assert(hes1[h] == hes0[h]);
                assert(hes0[h].next == block_fwd(faces0, nh0, f, h));
                assert(hes0[h].prev == block_bwd(faces0, nh0, f, h));
            }
        }
        assert forall|h: int|
            0 <= h < nh1 implies (#[trigger] hes1[h]).twin is None by {
            if h >= nh0 {
                let y = h - nh0;
                assert((#[trigger] hes1[nh0 + y]).twin is None);
            }
        }
        assert forall|h: int| 0 <= h < nh1 implies (#[trigger] hes1[h]).face < faces1.len()
            && hb_start(faces1, hes1[h].face as int) <= h < hb_end(
            faces1,
            nh1,
            hes1[h].face as int,
        ) by {
            if h < nh0 {
                assert(hes1[h] == hes0[h]);
                assert(hes0[h].face < faces0.len());
                assert(block_ok_at(faces0, nh0, hes0[h].face as int));
                assert(hb_start(faces0, hes0[h].face as int) <= h < hb_end(
                    faces0,
                    nh0,
                    hes0[h].face as int,
                ));
            } else {
                let y = h - nh0;
                assert((#[trigger] hes1[nh0 + y]).face == nf0);
            }
        }
        assert forall|h: int| 0 <= h < nh1 implies (#[trigger] hes1[h]).origin
            < post.spec_vertices().len() by {
            if h < nh0 {
                assert(hes1[h] == hes0[h]);
            } else {
                let y = h - nh0;
                assert((#[trigger] hes1[nh0 + y]).origin == vertices[y]);
            }
        }
        assert forall|h: int| 0 <= h < nh1 && (#[trigger] hes1[h]).twin is Some implies
            hes1[h].twin->0 < nh1 && hes1[h].twin->0 != h && hes1[hes1[h].twin->0 as int].twin
            == Some(h as usize) && uedge(hes1, hes1[h].twin->0 as int) == uedge(hes1, h) by {
            if h < nh0 {
                assert(hes1[h] == hes0[h]);
                assert(hes0[h].twin is None);
            } else {
                let y = h - nh0;
                assert((#[trigger] hes1[nh0 + y]).twin is None);
            }
        }
    }
}

} // verus!
