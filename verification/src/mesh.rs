use vstd::prelude::*;

verus! {

/// One decoded face: the slot taken from the face's second header entry and
/// the position indices of its vertices, in order.
pub struct Face {
    pub normal_index: u32,
    pub vertex_indices: Vec<u32>,
}

/// The faces encoded in `s` from offset `pos` on. Each face is two header
/// slots — its vertex count, then its normal slot — followed by exactly that
/// many position indices; the next face starts right after, with no
/// delimiter. A face whose vertex list would run past the end of the buffer
/// is clipped at the end, and a trailing fragment of fewer than two slots
/// encodes nothing.
pub open spec fn faces_from(s: Seq<u32>, pos: int) -> Seq<(u32, Seq<u32>)>
    decreases s.len() - pos,
{
    if pos < 0 || pos + 2 > s.len() {
        Seq::empty()
    } else {
        let vc = s[pos] as int;
        let fend = if pos + 2 + vc > s.len() {
            s.len() as int
        } else {
            pos + 2 + vc
        };
        seq![(s[pos + 1], s.subrange(pos + 2, fend))] + faces_from(s, fend)
    }
}

/// Structural well-formedness from `pos`: every face header announces a
/// vertex list that really lies inside the buffer, and the last face ends
/// exactly at the buffer's end.
pub open spec fn frames_ok(s: Seq<u32>, pos: int) -> bool
    decreases s.len() - pos,
{
    if pos == s.len() {
        true
    } else if pos < 0 || pos + 2 > s.len() {
        false
    } else {
        let vc = s[pos] as int;
        let fend = if pos + 2 + vc > s.len() {
            s.len() as int
        } else {
            pos + 2 + vc
        };
        pos + 2 + vc <= s.len() && frames_ok(s, fend)
    }
}

/// One decoded face is renderable against `npos` positions and `nnorm`
/// per-face normals: every vertex index names a position, and the normal
/// slot plus one — entry 0 of the normal list is the reserved fallback —
/// names a normal.
pub open spec fn face_ok(f: (u32, Seq<u32>), npos: int, nnorm: int) -> bool {
    &&& f.0 + 1 < nnorm
    &&& forall|j: int| 0 <= j < f.1.len() ==> f.1[j] < npos
}

/// A buffer the renderer may walk blindly: structurally sound, with every
/// index of every face in range.
pub open spec fn indices_well_formed(s: Seq<u32>, npos: int, nnorm: int) -> bool {
    &&& frames_ok(s, 0)
    &&& forall|i: int|
        0 <= i < faces_from(s, 0).len() ==> face_ok(
            #[trigger] faces_from(s, 0)[i],
            npos,
            nnorm,
        )
}

/// A restartable cursor over the flat face encoding of an index buffer.
pub struct FaceCursor {
    pos: usize,
}

impl FaceCursor {
    /// Offset of the next unread slot.
    pub closed spec fn pos_spec(&self) -> int {
        self.pos as int
    }

    /// The faces not yet returned, for a given index buffer.
    pub open spec fn remaining(&self, s: Seq<u32>) -> Seq<(u32, Seq<u32>)> {
        faces_from(s, self.pos_spec())
    }

    /// A cursor at the start of the buffer.
    pub fn new() -> (c: FaceCursor)
        ensures
            c.pos_spec() == 0,
    {
        FaceCursor { pos: 0 }
    }

    /// Decode the face under the cursor and advance exactly past it; None
    /// once fewer than two slots remain.
    pub fn next(&mut self, indices: &Vec<u32>) -> (face: Option<Face>)
        ensures
            old(self).remaining(indices@).len() == 0 ==> (face is None && final(self).pos_spec()
                == old(self).pos_spec()),
            old(self).remaining(indices@).len() > 0 ==> {
                &&& face matches Some(f) && f.normal_index == old(self).remaining(indices@)[0].0
                    && f.vertex_indices@ == old(self).remaining(indices@)[0].1
                &&& final(self).remaining(indices@) == old(self).remaining(indices@).skip(1)
                &&& old(self).pos_spec() < final(self).pos_spec() <= indices@.len()
            },
    {
        let n = indices.len();
        if self.pos >= n || n - self.pos < 2 {
            return None;
        }
        let vc = indices[self.pos];
        let normal_index = indices[self.pos + 1];
        let start = self.pos + 2;
        let rem = n - start;
        let take: usize = if (vc as u64) > (rem as u64) {
            rem
        } else {
            vc as usize
        };
        let mut vertex_indices: Vec<u32> = Vec::new();
        let mut i: usize = 0;
        while i < take
            invariant
                i <= take,
                n == indices@.len(),
                start + take <= n,
                vertex_indices@ == indices@.subrange(start as int, start + i),
            decreases take - i,
        {
            vertex_indices.push(indices[start + i]);
            i = i + 1;
            proof {
                assert(vertex_indices@ =~= indices@.subrange(start as int, start + i));
            }
        }
        let ghost fs = faces_from(indices@, self.pos as int);
        proof {
            assert(fs[0] == (indices@[self.pos + 1], indices@.subrange(
                start as int,
                start + take,
            )));
            assert(fs.skip(1) =~~= faces_from(indices@, start + take));
        }
        self.pos = start + take;
        Some(Face { normal_index, vertex_indices })
    }
}

/// Check a whole index buffer before handing it to the renderer.
pub fn check_indices(indices: &Vec<u32>, npos: usize, nnorm: usize) -> (ok: bool)
    ensures
        ok == indices_well_formed(indices@, npos as int, nnorm as int),
{
    let ghost s = indices@;
    let n = indices.len();
    let mut pos: usize = 0;
    let ghost done: Seq<(u32, Seq<u32>)> = Seq::empty();
    proof {
        assert(faces_from(s, 0) =~~= done + faces_from(s, 0));
    }
    while pos < n
        invariant
            pos <= n,
            n == s.len(),
            s == indices@,
            frames_ok(s, 0) == frames_ok(s, pos as int),
            faces_from(s, 0) == done + faces_from(s, pos as int),
            forall|i: int|
                0 <= i < done.len() ==> face_ok(#[trigger] done[i], npos as int, nnorm as int),
        decreases n - pos,
    {
        if n - pos < 2 {
            return false;
        }
        let vc = indices[pos];
        if (vc as u64) > ((n - pos - 2) as u64) {
            return false;
        }
        let normal = indices[pos + 1];
        let ghost fend = pos + 2 + vc as int;
        let ghost f0 = (s[pos + 1], s.subrange(pos + 2, fend));
        proof {
            assert(faces_from(s, pos as int) == seq![f0] + faces_from(s, fend));
            assert(faces_from(s, pos as int)[0] == f0);
        }
        if (normal as u64) + 1 >= (nnorm as u64) {
            proof {
                assert(!face_ok(f0, npos as int, nnorm as int));
                assert(faces_from(s, 0)[done.len() as int] == f0);
            }
            return false;
        }
        let count = vc as usize;
        let start = pos + 2;
        let mut j: usize = 0;
        while j < count
            invariant
                j <= count,
                n == s.len(),
                s == indices@,
                start == pos + 2,
                start + count <= n,
                fend == start + count,
                f0 == (s[pos + 1], s.subrange(start as int, fend)),
                faces_from(s, 0) == done + faces_from(s, pos as int),
                faces_from(s, pos as int) == seq![f0] + faces_from(s, fend),
                forall|j2: int| 0 <= j2 < j ==> #[trigger] s[start + j2] < npos,
            decreases count - j,
        {
            if (indices[start + j] as u64) >= (npos as u64) {
                proof {
                    assert(f0.1[j as int] == s[start + j]);
                    assert(!face_ok(f0, npos as int, nnorm as int));
                    assert(faces_from(s, 0)[done.len() as int] == f0);
                }
                return false;
            }
            j = j + 1;
        }
        proof {
            assert forall|j2: int| 0 <= j2 < f0.1.len() implies f0.1[j2] < npos as int by {
                assert(f0.1[j2] == s[start + j2]);
            }
            assert(face_ok(f0, npos as int, nnorm as int));
            assert(faces_from(s, 0) =~~= (done + seq![f0]) + faces_from(s, fend));
        }
        proof {
            done = done + seq![f0];
        }
        pos = start + count;
    }
    proof {
        assert(faces_from(s, pos as int) =~~= Seq::<(u32, Seq<u32>)>::empty());
        assert(faces_from(s, 0) =~~= done);
    }
    true
}

/// The inverse encoder: each face laid back down as its two header slots
/// followed by its vertex indices, all faces concatenated.
pub open spec fn encode_faces(fs: Seq<(u32, Seq<u32>)>) -> Seq<u32>
    decreases fs.len(),
{
    if fs.len() == 0 {
        Seq::empty()
    } else {
        seq![fs[0].1.len() as u32, fs[0].0] + fs[0].1 + encode_faces(fs.skip(1))
    }
}

/// Law: decoding loses nothing and never drifts. On a structurally
/// well-formed buffer, re-encoding the decoded faces reproduces the buffer
/// slot for slot.
pub proof fn lemma_decode_encode_roundtrip(s: Seq<u32>)
    requires
        frames_ok(s, 0),
    ensures
        encode_faces(faces_from(s, 0)) == s,
{
    lemma_decode_encode_from(s, 0);
    assert(s.subrange(0, s.len() as int) =~= s);
}

proof fn lemma_decode_encode_from(s: Seq<u32>, pos: int)
    requires
        0 <= pos <= s.len(),
        frames_ok(s, pos),
    ensures
        encode_faces(faces_from(s, pos)) == s.subrange(pos, s.len() as int),
    decreases s.len() - pos,
{
    if pos == s.len() {
        assert(s.subrange(pos, s.len() as int) =~= Seq::<u32>::empty());
    } else {
        let vc = s[pos] as int;
        let fend = pos + 2 + vc;
        let f0 = (s[pos + 1], s.subrange(pos + 2, fend));
        lemma_decode_encode_from(s, fend);
        let fs = faces_from(s, pos);
        assert(fs == seq![f0] + faces_from(s, fend));
        assert(fs[0] == f0);
        assert(fs.skip(1) =~~= faces_from(s, fend));
        assert(f0.1.len() == vc);
        assert(f0.1.len() as u32 == s[pos]);
        assert(encode_faces(fs) == seq![s[pos], s[pos + 1]] + f0.1 + encode_faces(
            faces_from(s, fend),
        ));
        assert(s.subrange(pos, s.len() as int) =~= seq![s[pos], s[pos + 1]] + s.subrange(
            pos + 2,
            fend,
        ) + s.subrange(fend, s.len() as int));
    }
}

} // verus!
