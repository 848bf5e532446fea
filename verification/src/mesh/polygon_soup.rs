use vstd::prelude::*;

use crate::geometry::Vector3;

verus! {

/// Where face `f`'s vertex list begins in the flat vertex-index array.
pub open spec fn face_start(off: Seq<usize>, f: int) -> int {
    off[f] as int
}

/// Where face `f`'s vertex list ends in the flat vertex-index array.
pub open spec fn face_end(off: Seq<usize>, total: int, f: int) -> int {
    if f + 1 < off.len() {
        off[f + 1] as int
    } else {
        total
    }
}

/// The face offsets are sorted and stay within the flat array.
pub open spec fn offsets_ok(off: Seq<usize>, total: int) -> bool {
    forall|f: int|
        0 <= f < off.len() ==> #[trigger] face_start(off, f) <= face_end(off, total, f) <= total
}

/// A minimal staging container for mesh construction: a vertex list, a
/// variable-length face list stored as offsets into one flat vertex-index
/// array, an optional patch id per face, and the patch names.
#[derive(Debug, Clone)]
pub struct PolygonSoup {
    vertices: Vec<Vector3>,
    face_offsets: Vec<usize>,
    face_vertices: Vec<usize>,
    face_patches: Vec<Option<usize>>,
    patches: Vec<Vec<u8>>,
}

impl PolygonSoup {
    /// The sequence of vertices.
    pub closed spec fn spec_vertices(self) -> Seq<Vector3> {
        self.vertices@
    }

    /// The vertex-index list of face `f`.
    pub closed spec fn spec_face(self, f: int) -> Seq<usize> {
        self.face_vertices@.subrange(
            face_start(self.face_offsets@, f),
            face_end(self.face_offsets@, self.face_vertices@.len() as int, f),
        )
    }

    /// The patch id of face `f`, if any.
    pub closed spec fn spec_face_patch(self, f: int) -> Option<usize> {
        self.face_patches@[f]
    }

    /// The sequence of patch names.
    pub closed spec fn spec_patches(self) -> Seq<Seq<u8>> {
        self.patches@.map_values(|p: Vec<u8>| p@)
    }

    pub closed spec fn spec_n_faces(self) -> int {
        self.face_offsets@.len() as int
    }

    /// The container is well formed: offsets are sorted, in range, and there
    /// is one patch entry per face.
    pub closed spec fn wf(self) -> bool {
        &&& self.face_patches@.len() == self.face_offsets@.len()
        &&& offsets_ok(self.face_offsets@, self.face_vertices@.len() as int)
    }

    /// Construct an empty polygon soup.
    pub fn new() -> (r: PolygonSoup)
        ensures
            r.wf(),
            r.spec_vertices() == Seq::<Vector3>::empty(),
            r.spec_n_faces() == 0,
            r.spec_patches() == Seq::<Seq<u8>>::empty(),
    {
        let r = PolygonSoup {
            vertices: Vec::new(),
            face_offsets: Vec::new(),
            face_vertices: Vec::new(),
            face_patches: Vec::new(),
            patches: Vec::new(),
        };
        proof {
            assert(r.spec_patches() =~= Seq::<Seq<u8>>::empty());
        }
        r
    }

    /// Get the number of vertices.
    pub fn n_vertices(&self) -> (n: usize)
        ensures
            n == self.spec_vertices().len(),
    {
        self.vertices.len()
    }

    /// Get a vertex.
    pub fn vertex(&self, index: usize) -> (v: Vector3)
        requires
            index < self.spec_vertices().len(),
        ensures
            v == self.spec_vertices()[index as int],
    {
        self.vertices[index]
    }

    /// Insert a vertex.
    pub fn insert_vertex(&mut self, position: Vector3)
        requires
            old(self).wf(),
        ensures
            final(self).wf(),
            final(self).spec_vertices() == old(self).spec_vertices().push(position),
            final(self).spec_n_faces() == old(self).spec_n_faces(),
            final(self).spec_patches() == old(self).spec_patches(),
            forall|f: int|
                0 <= f < old(self).spec_n_faces() ==> #[trigger] final(self).spec_face(f) == old(
                    self,
                ).spec_face(f) && final(self).spec_face_patch(f) == old(self).spec_face_patch(f),
    {
        self.vertices.push(position);
    }

    /// Get the number of faces.
    pub fn n_faces(&self) -> (n: usize)
        ensures
            n == self.spec_n_faces(),
    {
        self.face_offsets.len()
    }

    /// Get a face definition: its vertex indices and its optional patch id.
    pub fn face(&self, index: usize) -> (r: (Vec<usize>, Option<usize>))
        requires
            self.wf(),
            index < self.spec_n_faces(),
        ensures
            r.0@ == self.spec_face(index as int),
            r.1 == self.spec_face_patch(index as int),
    {
        let n = self.face_offsets.len();
        let start = self.face_offsets[index];
        let end = if index + 1 < n {
            self.face_offsets[index + 1]
        } else {
            self.face_vertices.len()
        };
        proof {
            assert(face_start(self.face_offsets@, index as int) <= face_end(
                self.face_offsets@,
                self.face_vertices@.len() as int,
                index as int,
            ));
            assert(face_end(
                self.face_offsets@,
                self.face_vertices@.len() as int,
                index as int,
            ) <= self.face_vertices@.len() as int);
        }
        let mut vertices = Vec::<usize>::new();
        let mut i = start;
        while i < end
            invariant
                start <= i <= end,
                end <= self.face_vertices@.len(),
                vertices@ == self.face_vertices@.subrange(start as int, i as int),
            decreases end - i,
        {
            vertices.push(self.face_vertices[i]);
            i += 1;
            proof {
                assert(vertices@ =~= self.face_vertices@.subrange(start as int, i as int));
            }
        }
        proof {
            assert(vertices@ =~= self.spec_face(index as int));
        }
        (vertices, self.face_patches[index])
    }

    /// Insert a face from its vertex indices and optional patch id.
    pub fn insert_face(&mut self, vertices: &[usize], patch: Option<usize>)
        requires
            old(self).wf(),
        ensures
            final(self).wf(),
            final(self).spec_n_faces() == old(self).spec_n_faces() + 1,
            final(self).spec_face(old(self).spec_n_faces()) == vertices@,
            final(self).spec_face_patch(old(self).spec_n_faces()) == patch,
            final(self).spec_vertices() == old(self).spec_vertices(),
            final(self).spec_patches() == old(self).spec_patches(),
            forall|f: int|
                0 <= f < old(self).spec_n_faces() ==> #[trigger] final(self).spec_face(f) == old(
                    self,
                ).spec_face(f) && final(self).spec_face_patch(f) == old(self).spec_face_patch(f),
    {
        let offset = self.face_vertices.len();
        self.face_offsets.push(offset);
        let mut i: usize = 0;
        let ghost pre = self.face_vertices@;
        while i < vertices.len()
            invariant
                i <= vertices@.len(),
                offset == pre.len(),
                pre == old(self).face_vertices@,
                self.face_offsets@ == old(self).face_offsets@.push(offset),
                self.face_patches@ == old(self).face_patches@,
                self.vertices@ == old(self).vertices@,
                self.patches@ == old(self).patches@,
                self.face_vertices@ == pre + vertices@.subrange(0, i as int),
            decreases vertices@.len() - i,
        {
            let v = vertices[i];
            self.face_vertices.push(v);
            i += 1;
            proof {
                assert(self.face_vertices@ =~= pre + vertices@.subrange(0, i as int));
            }
        }
        self.face_patches.push(patch);
        proof {
            let oldn = old(self).spec_n_faces();
            let off0 = old(self).face_offsets@;
            let off1 = final(self).face_offsets@;
            let t0 = old(self).face_vertices@.len() as int;
            let t1 = final(self).face_vertices@.len() as int;
            assert(vertices@.subrange(0, vertices@.len() as int) =~= vertices@);
            assert(final(self).face_vertices@ == pre + vertices@);
            assert(off1 =~= off0.push(offset));
            assert(t1 == t0 + vertices@.len());
            assert(offsets_ok(off1, t1)) by {
                assert forall|f: int| 0 <= f < off1.len() implies #[trigger] face_start(off1, f)
                    <= face_end(off1, t1, f) <= t1 by {
                    if f < oldn {
                        assert(face_start(off0, f) <= face_end(off0, t0, f) <= t0);
                        assert(face_start(off1, f) == face_start(off0, f));
                        if f + 1 < off0.len() {
                            assert(face_end(off1, t1, f) == face_end(off0, t0, f));
                        } else {
                            assert(face_end(off1, t1, f) == offset as int);
                        }
                    } else {
                        assert(face_start(off1, f) == t0);
                        assert(face_end(off1, t1, f) == t1);
                    }
                }
            }
            assert(final(self).spec_face(oldn) =~= vertices@);
            assert forall|f: int| 0 <= f < oldn implies #[trigger] final(self).spec_face(f) == old(
                self,
            ).spec_face(f) && final(self).spec_face_patch(f) == old(self).spec_face_patch(f) by {
                assert(face_start(off0, f) <= face_end(off0, t0, f) <= t0);
                assert(face_start(off1, f) == face_start(off0, f));
                assert(face_end(off1, t1, f) == face_end(off0, t0, f));
                assert(final(self).spec_face(f) =~= old(self).spec_face(f));
            }
        }
    }

    /// Get the number of patches.
    pub fn n_patches(&self) -> (n: usize)
        ensures
            n == self.spec_patches().len(),
    {
        self.patches.len()
    }

    /// Get a patch name.
    pub fn patch(&self, index: usize) -> (name: &Vec<u8>)
        requires
            index < self.spec_patches().len(),
        ensures
            name@ == self.spec_patches()[index as int],
    {
        &self.patches[index]
    }

    /// Insert a patch.
    pub fn insert_patch(&mut self, name: Vec<u8>)
        requires
            old(self).wf(),
        ensures
            final(self).wf(),
            final(self).spec_patches() == old(self).spec_patches().push(name@),
            final(self).spec_vertices() == old(self).spec_vertices(),
            final(self).spec_n_faces() == old(self).spec_n_faces(),
            forall|f: int|
                0 <= f < old(self).spec_n_faces() ==> #[trigger] final(self).spec_face(f) == old(
                    self,
                ).spec_face(f) && final(self).spec_face_patch(f) == old(self).spec_face_patch(f),
    {
        let ghost oldname = name@;
        self.patches.push(name);
        proof {
            assert(final(self).spec_patches() =~= old(self).spec_patches().push(oldname));
        }
    }
}

} // verus!
