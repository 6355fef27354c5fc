use vstd::prelude::*;

verus! {

/// Integer cell of the grid in the mesh's local XZ plane.
#[derive(Clone, Copy, Debug, PartialEq, Eq, Hash, Structural)]
pub struct ChunkPos {
    pub x: i32,
    pub z: i32,
}

/// A mesh vertex. Each coordinate is stored as the bit pattern of its
/// IEEE-754 single-precision value: the partitioner copies vertices between
/// buffers and never does arithmetic on them.
#[derive(Clone, Copy, Debug, PartialEq, Eq, Hash, Structural)]
pub struct Vertex {
    pub x: u32,
    pub y: u32,
    pub z: u32,
}

/// One triangle: three offsets into a vertex buffer, in winding order.
#[derive(Clone, Copy, Debug, PartialEq, Eq, Hash, Structural)]
pub struct Index {
    pub x: u32,
    pub y: u32,
    pub z: u32,
}

impl Index {
    /// Corner `i` (0, 1 or 2) of the triangle.
    pub open spec fn corner(self, i: int) -> int {
        if i == 0 {
            self.x as int
        } else if i == 1 {
            self.y as int
        } else {
            self.z as int
        }
    }

    /// All three corners are offsets into a buffer of `n` vertices.
    pub open spec fn fits(self, n: int) -> bool {
        self.x < n && self.y < n && self.z < n
    }
}

impl From<[u32; 3]> for Index {
    fn from(raw: [u32; 3]) -> (r: Index)
        ensures
            r == (Index { x: raw@[0], y: raw@[1], z: raw@[2] }),
    {
        Index { x: raw[0], y: raw[1], z: raw[2] }
    }
}

impl vstd::std_specs::convert::FromSpecImpl<[u32; 3]> for Index {
    open spec fn obeys_from_spec() -> bool {
        true
    }

    open spec fn from_spec(raw: [u32; 3]) -> Index {
        Index { x: raw@[0], y: raw@[1], z: raw@[2] }
    }
}

/// Triangles of a flat index buffer: consecutive groups of three, an
/// incomplete group at the end left out.
pub open spec fn grouped(raw: Seq<int>) -> Seq<Index>
    recommends
        forall|i: int| 0 <= i < raw.len() ==> 0 <= #[trigger] raw[i] <= u32::MAX,
{
    Seq::new(
        (raw.len() / 3) as nat,
        |t: int| Index { x: raw[3 * t] as u32, y: raw[3 * t + 1] as u32, z: raw[3 * t + 2] as u32 },
    )
}

/// Widens a 16-bit index buffer and groups it into triangles.
pub fn triangles_from_u16(raw: &Vec<u16>) -> (r: Vec<Index>)
    ensures
        r@ == grouped(raw@.map_values(|i: u16| i as int)),
{
    let ghost wide = raw@.map_values(|i: u16| i as int);
    let mut r: Vec<Index> = Vec::new();
    let n: usize = raw.len() / 3;
    let mut t: usize = 0;
    while t < n
        invariant
            n == raw.len() / 3,
            t <= n,
            wide == raw@.map_values(|i: u16| i as int),
            r@ == grouped(wide).take(t as int),
        decreases n - t,
    {
        let tri = Index { x: raw[3 * t] as u32, y: raw[3 * t + 1] as u32, z: raw[3 * t + 2] as u32 };
        r.push(tri);
        t = t + 1;
        assert(r@ =~= grouped(wide).take(t as int));
    }
    assert(r@ =~= grouped(wide));
    r
}

/// Groups a 32-bit index buffer into triangles.
pub fn triangles_from_u32(raw: &Vec<u32>) -> (r: Vec<Index>)
    ensures
        r@ == grouped(raw@.map_values(|i: u32| i as int)),
{
    let ghost wide = raw@.map_values(|i: u32| i as int);
    let mut r: Vec<Index> = Vec::new();
    let n: usize = raw.len() / 3;
    let mut t: usize = 0;
    while t < n
        invariant
            n == raw.len() / 3,
            t <= n,
            wide == raw@.map_values(|i: u32| i as int),
            r@ == grouped(wide).take(t as int),
        decreases n - t,
    {
        r.push(Index::from([raw[3 * t], raw[3 * t + 1], raw[3 * t + 2]]));
        t = t + 1;
        assert(r@ =~= grouped(wide).take(t as int));
    }
    assert(r@ =~= grouped(wide));
    r
}

} // verus!
