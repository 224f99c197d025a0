use vstd::prelude::*;

verus! {

/// A triangle of a mesh: the positions of its three corners in the vertex list.
#[derive(Debug, Clone, Copy, PartialEq, Eq, Structural)]
pub struct Face {
    pub v0: usize,
    pub v1: usize,
    pub v2: usize,
}

impl Face {
    /// Whether all three corners name one of `n` vertices.
    pub open spec fn within(self, n: int) -> bool {
        self.v0 < n && self.v1 < n && self.v2 < n
    }
}

/// Whether every face of `faces` names vertices among the first `n` only.
pub open spec fn faces_within(faces: Seq<Face>, n: int) -> bool {
    forall|i: int| 0 <= i < faces.len() ==> (#[trigger] faces[i]).within(n)
}

/// Whether every face refers to one of `vertex_count` vertices, as a mesh needs
/// before it can be traced.
pub fn faces_in_range(faces: &Vec<Face>, vertex_count: usize) -> (r: bool)
    ensures
        r == faces_within(faces@, vertex_count as int),
{
    let mut i: usize = 0;
    while i < faces.len()
        invariant
            i <= faces.len(),
            faces_within(faces@.take(i as int), vertex_count as int),
        decreases faces.len() - i,
    {
        let f = faces[i];
        if f.v0 >= vertex_count || f.v1 >= vertex_count || f.v2 >= vertex_count {
            assert(!faces@[i as int].within(vertex_count as int));
            return false;
        }
        assert(faces@.take(i as int + 1) =~= faces@.take(i as int).push(f));
        i += 1;
    }
    assert(faces@.take(i as int) =~= faces@);
    true
}

} // verus!
