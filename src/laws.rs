use vstd::prelude::*;
use crate::geometry::{ChunkPos, Index, Vertex};
use crate::partition::{
    Chunk, home, holds_before, holds_received, is_partition, lemma_received_complete,
    lemma_received_members, received, receives, same_triangle, straddles, valid_mesh,
};

verus! {

/// Some chunk of `out` at cell `c` holds triangle `src` of the mesh.
pub open spec fn placed_in(out: Seq<Chunk>, c: ChunkPos, verts: Seq<Vertex>, src: Index) -> bool {
    exists|a: int, j: int|
        0 <= a < out.len() && 0 <= j < out[a].triangles@.len() && #[trigger] out[a].pos == c
            && same_triangle(out[a].vertices@, #[trigger] out[a].triangles@[j], verts, src)
}

/// A cell that receives triangle `k` holds it in the partition.
pub proof fn lemma_received_is_placed(
    out: Seq<Chunk>,
    verts: Seq<Vertex>,
    homes: Seq<ChunkPos>,
    tris: Seq<Index>,
    k: int,
    c: ChunkPos,
)
    requires
        is_partition(out, verts, homes, tris),
        0 <= k < tris.len(),
        receives(homes, tris, k, c),
    ensures
        placed_in(out, c, verts, tris[k]),
{
    let a = choose|a: int| 0 <= a < out.len() && (#[trigger] out[a]).pos == c;
    assert(holds_received(
        out[a].vertices@,
        out[a].triangles@,
        c,
        verts,
        homes,
        tris,
        tris.len() as int,
    ));
    lemma_received_complete(homes, tris, c, k, tris.len() as int);
    let order = received(homes, tris, c, tris.len() as int);
    let j = choose|j: int| 0 <= j < order.len() && #[trigger] order[j] == k;
    assert(same_triangle(out[a].vertices@, out[a].triangles@[j], verts, tris[k]));
}

/// Every triangle of the mesh lies, with its winding and its corners'
/// vertices, in the chunk of its first corner's home cell.
pub proof fn lemma_coverage(
    out: Seq<Chunk>,
    verts: Seq<Vertex>,
    homes: Seq<ChunkPos>,
    tris: Seq<Index>,
    k: int,
)
    requires
        valid_mesh(verts, homes, tris),
        is_partition(out, verts, homes, tris),
        0 <= k < tris.len(),
    ensures
        placed_in(out, home(homes, tris[k], 0), verts, tris[k]),
{
    lemma_received_is_placed(out, verts, homes, tris, k, home(homes, tris[k], 0));
}

/// Every local triangle of every chunk refers to vertices of that chunk.
pub proof fn lemma_no_orphans(
    out: Seq<Chunk>,
    verts: Seq<Vertex>,
    homes: Seq<ChunkPos>,
    tris: Seq<Index>,
)
    requires
        is_partition(out, verts, homes, tris),
    ensures
        forall|a: int, j: int|
            0 <= a < out.len() && 0 <= j < out[a].triangles@.len() ==> (#[trigger] out[a].triangles@[j]).fits(
                out[a].vertices@.len() as int,
            ),
{
    assert forall|a: int, j: int|
        0 <= a < out.len() && 0 <= j < out[a].triangles@.len() implies (#[trigger] out[a].triangles@[j]).fits(
            out[a].vertices@.len() as int,
        ) by {
        assert(holds_received(
            out[a].vertices@,
            out[a].triangles@,
            out[a].pos,
            verts,
            homes,
            tris,
            tris.len() as int,
        ));
    }
}

/// A triangle whose corners lie in three different cells is held by all
/// three chunks, provided that each cell other than the first corner's
/// lacked a copy of one of its corners when the triangle was placed.
pub proof fn lemma_boundary(
    out: Seq<Chunk>,
    verts: Seq<Vertex>,
    homes: Seq<ChunkPos>,
    tris: Seq<Index>,
    k: int,
)
    requires
        valid_mesh(verts, homes, tris),
        is_partition(out, verts, homes, tris),
        0 <= k < tris.len(),
        home(homes, tris[k], 0) != home(homes, tris[k], 1),
        home(homes, tris[k], 1) != home(homes, tris[k], 2),
        home(homes, tris[k], 0) != home(homes, tris[k], 2),
        forall|i: int|
            1 <= i < 3 ==> !{
                let c = #[trigger] home(homes, tris[k], i);
                &&& holds_before(homes, tris, k, c, tris[k].corner(0))
                &&& holds_before(homes, tris, k, c, tris[k].corner(1))
                &&& holds_before(homes, tris, k, c, tris[k].corner(2))
            },
    ensures
        placed_in(out, home(homes, tris[k], 0), verts, tris[k]),
        placed_in(out, home(homes, tris[k], 1), verts, tris[k]),
        placed_in(out, home(homes, tris[k], 2), verts, tris[k]),
{
    assert(straddles(homes, tris[k]));
    let c1 = home(homes, tris[k], 1);
    let c2 = home(homes, tris[k], 2);
    lemma_received_is_placed(out, verts, homes, tris, k, home(homes, tris[k], 0));
    lemma_received_is_placed(out, verts, homes, tris, k, c1);
    lemma_received_is_placed(out, verts, homes, tris, k, c2);
}

/// `s` has a chunk at the cell of `ch` with as many triangles.
pub open spec fn has_match(s: Seq<Chunk>, ch: Chunk) -> bool {
    exists|b: int|
        0 <= b < s.len() && (#[trigger] s[b]).pos == ch.pos && s[b].triangles@.len()
            == ch.triangles@.len()
}

/// Two partitions of one mesh have the same cells, and each cell the same
/// number of triangles.
pub proof fn lemma_partition_deterministic(
    first: Seq<Chunk>,
    second: Seq<Chunk>,
    verts: Seq<Vertex>,
    homes: Seq<ChunkPos>,
    tris: Seq<Index>,
)
    requires
        is_partition(first, verts, homes, tris),
        is_partition(second, verts, homes, tris),
    ensures
        forall|a: int| 0 <= a < first.len() ==> has_match(second, #[trigger] first[a]),
        forall|b: int| 0 <= b < second.len() ==> has_match(first, #[trigger] second[b]),
{
    lemma_matched(first, second, verts, homes, tris);
    lemma_matched(second, first, verts, homes, tris);
}

proof fn lemma_matched(
    first: Seq<Chunk>,
    second: Seq<Chunk>,
    verts: Seq<Vertex>,
    homes: Seq<ChunkPos>,
    tris: Seq<Index>,
)
    requires
        is_partition(first, verts, homes, tris),
        is_partition(second, verts, homes, tris),
    ensures
        forall|a: int| 0 <= a < first.len() ==> has_match(second, #[trigger] first[a]),
{
    let n = tris.len() as int;
    assert forall|a: int| 0 <= a < first.len() implies has_match(second, #[trigger] first[a]) by {
        let c = first[a].pos;
        let order = received(homes, tris, c, n);
        assert(holds_received(first[a].vertices@, first[a].triangles@, c, verts, homes, tris, n));
        lemma_received_members(homes, tris, c, n);
        let k = order[0];
        assert(0 <= k < n && receives(homes, tris, k, c));
        let b = choose|b: int| 0 <= b < second.len() && (#[trigger] second[b]).pos == c;
        assert(holds_received(second[b].vertices@, second[b].triangles@, c, verts, homes, tris, n));
        assert(second[b].triangles@.len() == first[a].triangles@.len());
    }
}

/// A mesh without triangles partitions into no chunk at all.
pub proof fn lemma_empty_mesh(
    out: Seq<Chunk>,
    verts: Seq<Vertex>,
    homes: Seq<ChunkPos>,
    tris: Seq<Index>,
)
    requires
        tris.len() == 0,
        is_partition(out, verts, homes, tris),
    ensures
        out.len() == 0,
{
    if out.len() > 0 {
        assert(holds_received(out[0].vertices@, out[0].triangles@, out[0].pos, verts, homes, tris, 0));
    }
}

} // verus!
