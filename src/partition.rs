use vstd::prelude::*;
use crate::geometry::{ChunkPos, Index, Vertex};
use vstd::set_lib::{lemma_int_range, lemma_len_subset, set_int_range};
use std::collections::HashMap;
use itertools::Itertools;

verus! {

broadcast use vstd::std_specs::hash::group_hash_axioms;

/// Home cell of corner `i` of triangle `t`, given the home cell of every vertex.
pub open spec fn home(homes: Seq<ChunkPos>, t: Index, i: int) -> ChunkPos {
    homes[t.corner(i)]
}

/// The corners of `t` do not all lie in one cell.
pub open spec fn straddles(homes: Seq<ChunkPos>, t: Index) -> bool {
    !(home(homes, t, 0) == home(homes, t, 1) && home(homes, t, 1) == home(homes, t, 2))
}

/// Some corner of `t` lies in cell `c`.
pub open spec fn touches(homes: Seq<ChunkPos>, t: Index, c: ChunkPos) -> bool {
    home(homes, t, 0) == c || home(homes, t, 1) == c || home(homes, t, 2) == c
}

/// Vertex `g` is a corner of `t`.
pub open spec fn uses(t: Index, g: int) -> bool {
    t.corner(0) == g || t.corner(1) == g || t.corner(2) == g
}

/// A straddling triangle `t` that touches cell `c` brings its corner `g` into `c`.
pub open spec fn spreads_to(homes: Seq<ChunkPos>, t: Index, c: ChunkPos, g: int) -> bool {
    straddles(homes, t) && touches(homes, t, c) && uses(t, g)
}

/// Cell `c` holds a copy of vertex `g` once the first `k` triangles are placed:
/// `g` lives there, or an earlier straddling triangle brought it in.
pub open spec fn holds_before(
    homes: Seq<ChunkPos>,
    tris: Seq<Index>,
    k: int,
    c: ChunkPos,
    g: int,
) -> bool {
    homes[g] == c || exists|j: int| 0 <= j < k && #[trigger] spreads_to(homes, tris[j], c, g)
}

/// Cell `c` receives triangle `k`. A triangle inside one cell goes to that cell.
/// A straddling one goes to each cell it touches, except that a cell other
/// than the home of its first corner takes it only when that cell lacked a
/// copy of one of its corners.
pub open spec fn receives(homes: Seq<ChunkPos>, tris: Seq<Index>, k: int, c: ChunkPos) -> bool {
    let t = tris[k];
    if !straddles(homes, t) {
        home(homes, t, 0) == c
    } else {
        touches(homes, t, c) && (home(homes, t, 0) == c || !holds_before(
            homes,
            tris,
            k,
            c,
            t.corner(0),
        ) || !holds_before(homes, tris, k, c, t.corner(1)) || !holds_before(
            homes,
            tris,
            k,
            c,
            t.corner(2),
        ))
    }
}

/// The triangles among the first `k` that cell `c` receives, in mesh order.
pub open spec fn received(homes: Seq<ChunkPos>, tris: Seq<Index>, c: ChunkPos, k: int) -> Seq<int>
    decreases k,
{
    if k <= 0 {
        Seq::empty()
    } else {
        let prev = received(homes, tris, c, k - 1);
        if receives(homes, tris, k - 1, c) {
            prev.push(k - 1)
        } else {
            prev
        }
    }
}

/// Every triangle is an offset triple into the vertex buffer, and each
/// vertex has a home cell.
pub open spec fn valid_mesh(verts: Seq<Vertex>, homes: Seq<ChunkPos>, tris: Seq<Index>) -> bool {
    &&& homes.len() == verts.len()
    &&& forall|k: int| 0 <= k < tris.len() ==> (#[trigger] tris[k]).fits(verts.len() as int)
}

/// Local triangle `local` over buffer `local_verts` is the source triangle
/// `src` over `verts`: same corners in the same order.
pub open spec fn same_triangle(
    local_verts: Seq<Vertex>,
    local: Index,
    verts: Seq<Vertex>,
    src: Index,
) -> bool {
    &&& local.fits(local_verts.len() as int)
    &&& local_verts[local.corner(0)] == verts[src.corner(0)]
    &&& local_verts[local.corner(1)] == verts[src.corner(1)]
    &&& local_verts[local.corner(2)] == verts[src.corner(2)]
}

/// Triangle buffer `local_tris` over `local_verts` is exactly the sequence of
/// triangles that cell `c` receives, each resolving to its source corners.
pub open spec fn holds_received(
    local_verts: Seq<Vertex>,
    local_tris: Seq<Index>,
    c: ChunkPos,
    verts: Seq<Vertex>,
    homes: Seq<ChunkPos>,
    tris: Seq<Index>,
    k: int,
) -> bool {
    let order = received(homes, tris, c, k);
    &&& local_tris.len() == order.len()
    &&& forall|j: int|
        0 <= j < order.len() ==> same_triangle(
            local_verts,
            #[trigger] local_tris[j],
            verts,
            tris[order[j]],
        )
}

/// `gs` names, for each vertex of `local_verts`, the mesh vertex it copies:
/// each vertex that cell `c` holds after `k` triangles, exactly once.
pub open spec fn copies_of(
    gs: Seq<int>,
    local_verts: Seq<Vertex>,
    c: ChunkPos,
    verts: Seq<Vertex>,
    homes: Seq<ChunkPos>,
    tris: Seq<Index>,
    k: int,
) -> bool {
    &&& gs.len() == local_verts.len()
    &&& gs.no_duplicates()
    &&& forall|l: int|
        0 <= l < gs.len() ==> {
            &&& 0 <= #[trigger] gs[l] < verts.len()
            &&& holds_before(homes, tris, k, c, gs[l])
            &&& local_verts[l] == verts[gs[l]]
        }
    &&& forall|g: int|
        0 <= g < verts.len() && #[trigger] holds_before(homes, tris, k, c, g) ==> gs.contains(g)
}

/// The vertex buffer of cell `c` holds one copy of each mesh vertex that
/// the cell holds after `k` triangles, and nothing else.
pub open spec fn holds_copies(
    local_verts: Seq<Vertex>,
    c: ChunkPos,
    verts: Seq<Vertex>,
    homes: Seq<ChunkPos>,
    tris: Seq<Index>,
    k: int,
) -> bool {
    exists|gs: Seq<int>| #[trigger] copies_of(gs, local_verts, c, verts, homes, tris, k)
}

/// One cell of a partitioned mesh with its own vertex and triangle buffers.
pub struct Chunk {
    pub pos: ChunkPos,
    pub vertices: Vec<Vertex>,
    pub triangles: Vec<Index>,
}

/// `out` partitions the mesh: one chunk per cell that receives a triangle,
/// none empty, each holding exactly the triangles its cell receives and one
/// copy of each vertex the cell holds.
pub open spec fn is_partition(
    out: Seq<Chunk>,
    verts: Seq<Vertex>,
    homes: Seq<ChunkPos>,
    tris: Seq<Index>,
) -> bool {
    &&& forall|a: int, b: int| 0 <= a < b < out.len() ==> out[a].pos != out[b].pos
    &&& forall|a: int|
        0 <= a < out.len() ==> {
            &&& (#[trigger] out[a]).triangles@.len() > 0
            &&& holds_received(
                out[a].vertices@,
                out[a].triangles@,
                out[a].pos,
                verts,
                homes,
                tris,
                tris.len() as int,
            )
            &&& holds_copies(out[a].vertices@, out[a].pos, verts, homes, tris, tris.len() as int)
        }
    &&& forall|k: int, c: ChunkPos|
        0 <= k < tris.len() && #[trigger] receives(homes, tris, k, c) ==> exists|a: int|
            0 <= a < out.len() && (#[trigger] out[a]).pos == c
}

/// Every triangle that `received` lists is one that the cell receives.
pub proof fn lemma_received_members(
    homes: Seq<ChunkPos>,
    tris: Seq<Index>,
    c: ChunkPos,
    k: int,
)
    ensures
        forall|j: int|
            0 <= j < received(homes, tris, c, k).len() ==> {
                let m = #[trigger] received(homes, tris, c, k)[j];
                0 <= m < k && receives(homes, tris, m, c)
            },
    decreases k,
{
    if k > 0 {
        lemma_received_members(homes, tris, c, k - 1);
        let prev = received(homes, tris, c, k - 1);
        let cur = received(homes, tris, c, k);
        assert forall|j: int| 0 <= j < cur.len() implies {
            let m = #[trigger] cur[j];
            0 <= m < k && receives(homes, tris, m, c)
        } by {
            if j < prev.len() {
                assert(cur[j] == prev[j]);
            }
        }
    }
}

/// `received` lists every triangle that the cell receives.
pub proof fn lemma_received_complete(
    homes: Seq<ChunkPos>,
    tris: Seq<Index>,
    c: ChunkPos,
    m: int,
    k: int,
)
    requires
        0 <= m < k,
        receives(homes, tris, m, c),
    ensures
        exists|j: int|
            0 <= j < received(homes, tris, c, k).len() && #[trigger] received(homes, tris, c, k)[j]
                == m,
    decreases k,
{
    let prev = received(homes, tris, c, k - 1);
    if m == k - 1 {
        assert(received(homes, tris, c, k)[prev.len() as int] == m);
    } else {
        lemma_received_complete(homes, tris, c, m, k - 1);
        let j = choose|j: int| 0 <= j < prev.len() && #[trigger] prev[j] == m;
        assert(received(homes, tris, c, k)[j] == m);
    }
}

/// A cell's copies after one more triangle: those it had, plus the corners
/// of that triangle if it straddles into the cell.
proof fn lemma_holds_step(
    homes: Seq<ChunkPos>,
    tris: Seq<Index>,
    k: int,
    c: ChunkPos,
    g: int,
)
    requires
        0 <= k,
    ensures
        holds_before(homes, tris, k + 1, c, g) == (holds_before(homes, tris, k, c, g) || spreads_to(
            homes,
            tris[k],
            c,
            g,
        )),
{
    if holds_before(homes, tris, k + 1, c, g) && homes[g] != c && !spreads_to(homes, tris[k], c, g) {
        let j = choose|j: int| 0 <= j < k + 1 && #[trigger] spreads_to(homes, tris[j], c, g);
        assert(j < k);
    }
    if spreads_to(homes, tris[k], c, g) {
        assert(0 <= k < k + 1 && spreads_to(homes, tris[k], c, g));
    }
}


/// A sequence of distinct integers below `n` has at most `n` elements.
proof fn lemma_distinct_bound(s: Seq<int>, n: int)
    requires
        0 <= n,
        s.no_duplicates(),
        forall|l: int| 0 <= l < s.len() ==> 0 <= #[trigger] s[l] < n,
    ensures
        s.len() <= n,
{
    s.unique_seq_to_set();
    lemma_int_range(0, n);
    assert(s.to_set().subset_of(set_int_range(0, n)));
    lemma_len_subset(s.to_set(), set_int_range(0, n));
}

/// A cell under construction: its buffers, and the map from each global
/// vertex it holds a copy of to that copy's local offset.
struct Builder {
    pos: ChunkPos,
    vertices: Vec<Vertex>,
    triangles: Vec<Index>,
    local_of: HashMap<u32, u32>,
    globals: Ghost<Seq<int>>,
}

impl Builder {
    /// `local_of` and `globals` are inverse to each other, and each local
    /// vertex is a copy of its global one.
    spec fn wf(&self, verts: Seq<Vertex>) -> bool {
        let gs = self.globals@;
        &&& self.vertices@.len() == gs.len()
        &&& gs.no_duplicates()
        &&& verts.len() <= u32::MAX
        &&& forall|l: int|
            0 <= l < gs.len() ==> {
                &&& 0 <= #[trigger] gs[l] < verts.len()
                &&& self.vertices@[l] == verts[gs[l]]
                &&& self.local_of@.contains_key(gs[l] as u32)
                &&& self.local_of@[gs[l] as u32] == l
            }
        &&& forall|h: u32| #[trigger]
            self.local_of@.contains_key(h) ==> {
                let l = self.local_of@[h] as int;
                0 <= l < gs.len() && gs[l] == h as int
            }
    }

    spec fn holds(&self, g: int) -> bool {
        0 <= g <= u32::MAX && self.local_of@.contains_key(g as u32)
    }

    /// State before any triangle is placed, once vertices `0..g` went home.
    spec fn homed(&self, verts: Seq<Vertex>, homes: Seq<ChunkPos>, g: int) -> bool {
        &&& self.wf(verts)
        &&& self.triangles@.len() == 0
        &&& forall|h: int|
            0 <= h < verts.len() ==> (#[trigger] self.holds(h) <==> (h < g && homes[h] == self.pos))
    }

    /// State once the first `k` triangles are placed.
    spec fn placed(
        &self,
        verts: Seq<Vertex>,
        homes: Seq<ChunkPos>,
        tris: Seq<Index>,
        k: int,
    ) -> bool {
        &&& self.wf(verts)
        &&& forall|h: int|
            #![trigger self.holds(h)]
            #![trigger holds_before(homes, tris, k, self.pos, h)]
            0 <= h < verts.len() ==> (self.holds(h) <==> holds_before(homes, tris, k, self.pos, h))
        &&& holds_received(self.vertices@, self.triangles@, self.pos, verts, homes, tris, k)
    }

    fn empty(pos: ChunkPos, verts: &Vec<Vertex>) -> (r: Builder)
        requires
            verts@.len() <= u32::MAX,
        ensures
            r.pos == pos,
            r.wf(verts@),
            r.triangles@.len() == 0,
            r.local_of@ == Map::<u32, u32>::empty(),
    {
        Builder {
            pos,
            vertices: Vec::new(),
            triangles: Vec::new(),
            local_of: HashMap::new(),
            globals: Ghost(Seq::empty()),
        }
    }

    /// Local offset of the copy of global vertex `g`, added if missing; the
    /// flag tells whether it was added.
    fn localize(&mut self, g: u32, verts: &Vec<Vertex>) -> (r: (u32, bool))
        requires
            old(self).wf(verts@),
            (g as int) < verts@.len(),
        ensures
            final(self).wf(verts@),
            final(self).pos == old(self).pos,
            final(self).triangles@ == old(self).triangles@,
            r.1 == !old(self).local_of@.contains_key(g),
            final(self).local_of@ == old(self).local_of@.insert(g, r.0),
            old(self).vertices@.len() <= final(self).vertices@.len(),
            forall|l: int|
                0 <= l < old(self).vertices@.len() ==> final(self).vertices@[l] == old(
                    self,
                ).vertices@[l],
            (r.0 as int) < final(self).vertices@.len(),
            final(self).vertices@[r.0 as int] == verts@[g as int],
    {
        match self.local_of.get(&g) {
            Some(l) => {
                let l = *l;
                assert(self.local_of@ =~= old(self).local_of@.insert(g, l));
                (l, false)
            },
            None => {
                let ghost gs = self.globals@.push(g as int);
                proof {
                    assert forall|a: int, b: int|
                        0 <= a < gs.len() && 0 <= b < gs.len() && a != b implies gs[a] != gs[b] by {
                        if b == gs.len() - 1 {
                            assert(self.local_of@.contains_key(gs[a] as u32));
                        }
                        if a == gs.len() - 1 {
                            assert(self.local_of@.contains_key(gs[b] as u32));
                        }
                    }
                    lemma_distinct_bound(gs, verts@.len() as int);
                }
                let l = self.vertices.len() as u32;
                self.vertices.push(verts[g as usize]);
                self.local_of.insert(g, l);
                self.globals = Ghost(gs);
                (l, true)
            },
        }
    }

    /// Places triangle `k`, whose corners' home cells are `c0`, `c1`, `c2`,
    /// into this cell, which one of them is.
    fn place(
        &mut self,
        t: Index,
        c0: ChunkPos,
        straddling: bool,
        verts: &Vec<Vertex>,
        homes: &Vec<ChunkPos>,
        tris: &Vec<Index>,
        k: usize,
    )
        requires
            old(self).placed(verts@, homes@, tris@, k as int),
            valid_mesh(verts@, homes@, tris@),
            (k as int) < tris@.len(),
            t == tris@[k as int],
            c0 == home(homes@, t, 0),
            straddling == straddles(homes@, t),
            touches(homes@, t, old(self).pos),
        ensures
            final(self).placed(verts@, homes@, tris@, k + 1),
            final(self).pos == old(self).pos,
    {
        let ghost pos = self.pos;
        let ghost old_tris = self.triangles@;
        let ghost old_verts = self.vertices@;
        let ghost hb0 = holds_before(homes@, tris@, k as int, pos, t.x as int);
        let ghost hb1 = holds_before(homes@, tris@, k as int, pos, t.y as int);
        let ghost hb2 = holds_before(homes@, tris@, k as int, pos, t.z as int);
        assert(tris@[k as int].fits(verts@.len() as int));
        assert(self.holds(t.x as int) == hb0);
        assert(self.holds(t.y as int) == hb1);
        assert(self.holds(t.z as int) == hb2);
        let (l0, f0) = self.localize(t.x, verts);
        let ghost v1 = self.vertices@;
        let (l1, f1) = self.localize(t.y, verts);
        let ghost v2 = self.vertices@;
        let (l2, f2) = self.localize(t.z, verts);
        assert(f0 || f1 || f2 <==> (!hb0 || !hb1 || !hb2));
        let local = Index { x: l0, y: l1, z: l2 };
        assert(self.vertices@[l0 as int] == v1[l0 as int]);
        assert(self.vertices@[l1 as int] == v2[l1 as int]);
        let ghost order = received(homes@, tris@, pos, k as int);
        assert forall|j: int| 0 <= j < order.len() implies same_triangle(
            self.vertices@,
            #[trigger] self.triangles@[j],
            verts@,
            tris@[order[j]],
        ) by {
            assert(same_triangle(old_verts, old_tris[j], verts@, tris@[order[j]]));
        }
        if !straddling || f0 || f1 || f2 || c0 == self.pos {
            self.triangles.push(local);
            let ghost order1 = received(homes@, tris@, pos, k + 1);
            assert(order1 == order.push(k as int));
            assert forall|j: int| 0 <= j < order1.len() implies same_triangle(
                self.vertices@,
                #[trigger] self.triangles@[j],
                verts@,
                tris@[order1[j]],
            ) by {
                if j < order.len() {
                    assert(self.triangles@[j] == old_tris[j]);
                    assert(same_triangle(self.vertices@, old_tris[j], verts@, tris@[order[j]]));
                }
            }
        } else {
            assert(received(homes@, tris@, pos, k + 1) == order);
        }
        assert forall|h: int|
            #![trigger self.holds(h)]
            #![trigger holds_before(homes@, tris@, k + 1, pos, h)]
            0 <= h < verts@.len() implies (self.holds(h) <==> holds_before(
                homes@,
                tris@,
                k + 1,
                pos,
                h,
            )) by {
            lemma_holds_step(homes@, tris@, k as int, pos, h);
            assert(old(self).holds(h) <==> holds_before(homes@, tris@, k as int, pos, h));
        }
    }
}

/// A cell that triangle `k` does not touch is left as it was.
proof fn lemma_untouched(
    b: Builder,
    verts: Seq<Vertex>,
    homes: Seq<ChunkPos>,
    tris: Seq<Index>,
    k: int,
)
    requires
        b.placed(verts, homes, tris, k),
        0 <= k < tris.len(),
        !touches(homes, tris[k], b.pos),
    ensures
        b.placed(verts, homes, tris, k + 1),
{
    assert(received(homes, tris, b.pos, k + 1) == received(homes, tris, b.pos, k));
    assert forall|h: int|
        #![trigger b.holds(h)]
        #![trigger holds_before(homes, tris, k + 1, b.pos, h)]
        0 <= h < verts.len() implies (b.holds(h) <==> holds_before(homes, tris, k + 1, b.pos, h)) by {
        lemma_holds_step(homes, tris, k, b.pos, h);
        assert(b.holds(h) <==> holds_before(homes, tris, k, b.pos, h));
    }
}

/// The cells among `a`, `b`, `c`, each once, in order of first appearance.
pub open spec fn first_occurrences(a: ChunkPos, b: ChunkPos, c: ChunkPos) -> Seq<ChunkPos> {
    let s = seq![a];
    let s = if b != a {
        s.push(b)
    } else {
        s
    };
    if c != a && c != b {
        s.push(c)
    } else {
        s
    }
}

proof fn lemma_first_occurrences(a: ChunkPos, b: ChunkPos, c: ChunkPos)
    ensures
        forall|x: ChunkPos|
            first_occurrences(a, b, c).contains(x) <==> (x == a || x == b || x == c),
        first_occurrences(a, b, c).no_duplicates(),
{
    let s = first_occurrences(a, b, c);
    assert(s[0] == a);
    if b != a {
        assert(s[1] == b);
    }
    if c != a && c != b {
        assert(s[s.len() - 1] == c);
    }
}

/// Relies on itertools' `Itertools::unique`: it yields each distinct item
/// once, at its first occurrence, in the order of the input.
#[verifier::external_body]
fn unique_cells(cells: [ChunkPos; 3]) -> (r: Vec<ChunkPos>)
    ensures
        r@ == first_occurrences(cells[0], cells[1], cells[2]),
{
    cells.iter().map(|c| (c.x, c.z)).unique().map(|(x, z)| ChunkPos { x, z }).collect()
}

spec fn distinct_cells(bs: Seq<Builder>) -> bool {
    forall|a: int, b: int| 0 <= a < b < bs.len() ==> bs[a].pos != bs[b].pos
}

spec fn has_cell(bs: Seq<Builder>, c: ChunkPos) -> bool {
    exists|a: int| 0 <= a < bs.len() && (#[trigger] bs[a]).pos == c
}

/// Every vertex among the first `g` has a builder for its home cell.
spec fn cells_cover(bs: Seq<Builder>, homes: Seq<ChunkPos>, g: int) -> bool {
    forall|h: int| 0 <= h < g ==> has_cell(bs, #[trigger] homes[h])
}

proof fn lemma_homed_placed(
    b: Builder,
    verts: Seq<Vertex>,
    homes: Seq<ChunkPos>,
    tris: Seq<Index>,
)
    requires
        b.homed(verts, homes, verts.len() as int),
    ensures
        b.placed(verts, homes, tris, 0),
{
    assert(received(homes, tris, b.pos, 0).len() == 0);
    assert forall|h: int|
        #![trigger b.holds(h)]
        #![trigger holds_before(homes, tris, 0, b.pos, h)]
        0 <= h < verts.len() implies (b.holds(h) <==> holds_before(homes, tris, 0, b.pos, h)) by {
        assert(b.holds(h) <==> homes[h] == b.pos);
    }
}

proof fn lemma_copies(b: Builder, verts: Seq<Vertex>, homes: Seq<ChunkPos>, tris: Seq<Index>, k: int)
    requires
        b.placed(verts, homes, tris, k),
    ensures
        holds_copies(b.vertices@, b.pos, verts, homes, tris, k),
{
    let gs = b.globals@;
    assert forall|l: int| 0 <= l < gs.len() implies holds_before(homes, tris, k, b.pos, #[trigger] gs[l]) by {
        assert(b.holds(gs[l]));
    }
    assert forall|g: int|
        0 <= g < verts.len() && #[trigger] holds_before(homes, tris, k, b.pos, g) implies gs.contains(g) by {
        assert(b.holds(g));
        let l = b.local_of@[g as u32] as int;
        assert(gs[l] == g);
    }
    assert(copies_of(gs, b.vertices@, b.pos, verts, homes, tris, k));
}

spec fn has_chunk(out: Seq<Chunk>, c: ChunkPos) -> bool {
    exists|a: int| 0 <= a < out.len() && (#[trigger] out[a]).pos == c
}

/// Key of a cell in the builder index: its two coordinates, each shifted
/// to be non-negative, side by side in one 64-bit word.
spec fn cell_key(c: ChunkPos) -> u64 {
    ((c.x as int + 0x8000_0000) * 0x1_0000_0000 + (c.z as int + 0x8000_0000)) as u64
}

proof fn lemma_cell_key_injective(a: ChunkPos, b: ChunkPos)
    requires
        cell_key(a) == cell_key(b),
    ensures
        a == b,
{
    let xa = a.x as int + 0x8000_0000;
    let za = a.z as int + 0x8000_0000;
    let xb = b.x as int + 0x8000_0000;
    let zb = b.z as int + 0x8000_0000;
    assert(0 <= xa * 0x1_0000_0000 + za <= u64::MAX) by (nonlinear_arith)
        requires
            0 <= xa < 0x1_0000_0000,
            0 <= za < 0x1_0000_0000,
    ;
    assert(0 <= xb * 0x1_0000_0000 + zb <= u64::MAX) by (nonlinear_arith)
        requires
            0 <= xb < 0x1_0000_0000,
            0 <= zb < 0x1_0000_0000,
    ;
    assert(xa == xb && za == zb) by (nonlinear_arith)
        requires
            0 <= xa < 0x1_0000_0000,
            0 <= za < 0x1_0000_0000,
            0 <= xb < 0x1_0000_0000,
            0 <= zb < 0x1_0000_0000,
            xa * 0x1_0000_0000 + za == xb * 0x1_0000_0000 + zb,
    ;
}

fn key_of(c: ChunkPos) -> (r: u64)
    ensures
        r == cell_key(c),
{
    let x = (c.x as i64 + 0x8000_0000) as u64;
    let z = (c.z as i64 + 0x8000_0000) as u64;
    assert(x * 0x1_0000_0000 + z <= u64::MAX) by (nonlinear_arith)
        requires
            x < 0x1_0000_0000,
            z < 0x1_0000_0000,
    ;
    x * 0x1_0000_0000 + z
}

/// `index` maps the key of each builder's cell to that builder's offset.
spec fn indexed(index: Map<u64, usize>, bs: Seq<Builder>) -> bool {
    &&& forall|a: int|
        0 <= a < bs.len() ==> index.contains_key(cell_key(#[trigger] bs[a].pos)) && index[cell_key(
            bs[a].pos,
        )] == a
    &&& forall|k: u64| #[trigger]
        index.contains_key(k) ==> (index[k] as int) < bs.len() && cell_key(bs[index[k] as int].pos)
            == k
}

proof fn lemma_indexed_same_cells(index: Map<u64, usize>, before: Seq<Builder>, after: Seq<Builder>)
    requires
        indexed(index, before),
        before.len() == after.len(),
        forall|a: int| 0 <= a < before.len() ==> #[trigger] after[a].pos == before[a].pos,
    ensures
        indexed(index, after),
{
    assert forall|a: int| 0 <= a < after.len() implies index.contains_key(cell_key(#[trigger] after[a].pos)) by {
        assert(after[a].pos == before[a].pos);
    }
    assert forall|k: u64| #[trigger] index.contains_key(k) implies (index[k] as int) < after.len()
        && cell_key(after[index[k] as int].pos) == k by {
        assert(after[index[k] as int].pos == before[index[k] as int].pos);
    }
}

fn find(index: &HashMap<u64, usize>, builders: &Vec<Builder>, pos: ChunkPos) -> (r: Option<usize>)
    requires
        indexed(index@, builders@),
    ensures
        match r {
            Some(i) => (i as int) < builders@.len() && builders@[i as int].pos == pos,
            None => forall|i: int| 0 <= i < builders@.len() ==> builders@[i].pos != pos,
        },
{
    match index.get(&key_of(pos)) {
        Some(i) => {
            proof {
                lemma_cell_key_injective(builders@[*i as int].pos, pos);
            }
            Some(*i)
        },
        None => None,
    }
}

/// Splits a mesh into chunks, given the home cell of every vertex (`homes[g]`
/// is the cell of vertex `g`: its x and z coordinates each divided by half
/// the chunk size, floored).
///
/// Each vertex first goes to its home cell. Each triangle then goes, with
/// its winding kept and its corners renumbered into local offsets, to the
/// cells that `receives` names; every cell that a straddling triangle
/// touches gets a copy of each of its corners that it lacked. Cells left
/// without triangles are dropped. The chunks come in no promised order.
pub fn split_mesh(vertices: Vec<Vertex>, homes: Vec<ChunkPos>, indices: Vec<Index>) -> (out: Vec<Chunk>)
    requires
        valid_mesh(vertices@, homes@, indices@),
        vertices@.len() <= u32::MAX,
    ensures
        is_partition(out@, vertices@, homes@, indices@),
{
    let n = vertices.len();
    let mut builders: Vec<Builder> = Vec::new();
    let mut index: HashMap<u64, usize> = HashMap::new();
    let mut g: usize = 0;
    while g < n
        invariant
            n == vertices@.len(),
            valid_mesh(vertices@, homes@, indices@),
            n <= u32::MAX,
            g <= n,
            distinct_cells(builders@),
            indexed(index@, builders@),
            cells_cover(builders@, homes@, g as int),
            forall|a: int|
                0 <= a < builders@.len() ==> (#[trigger] builders@[a]).homed(
                    vertices@,
                    homes@,
                    g as int,
                ),
        decreases n - g,
    {
        let c = homes[g];
        let ghost before = builders@;
        match find(&index, &builders, c) {
            Some(i) => {
                builders[i].localize(g as u32, &vertices);
                assert(builders@[i as int].pos == c);
                assert forall|a: int| 0 <= a < builders@.len() implies #[trigger] builders@[a].pos
                    == before[a].pos by {
                    if a != i {
                        assert(builders@[a] == before[a]);
                    }
                }
                proof {
                    lemma_indexed_same_cells(index@, before, builders@);
                }
                assert forall|a: int| 0 <= a < builders@.len() implies (
                #[trigger] builders@[a]).homed(vertices@, homes@, g + 1) by {
                    if a != i {
                        assert(builders@[a] == before[a]);
                        assert(before[a].homed(vertices@, homes@, g as int));
                    } else {
                        let b = builders@[a];
                        assert forall|h: int| 0 <= h < vertices@.len() implies (#[trigger] b.holds(h)
                            <==> (h < g + 1 && homes@[h] == b.pos)) by {
                            assert(before[a].holds(h) <==> (h < g && homes@[h] == b.pos));
                        }
                    }
                }
                assert forall|h: int| 0 <= h < g + 1 implies has_cell(builders@, #[trigger] homes@[h]) by {
                    if h == g {
                        assert(builders@[i as int].pos == homes@[h]);
                    } else {
                        assert(has_cell(before, homes@[h]));
                        let a = choose|a: int| 0 <= a < before.len() && (#[trigger] before[a]).pos == homes@[h];
                        assert(builders@[a].pos == homes@[h]);
                    }
                }
            },
            None => {
                let mut b = Builder::empty(c, &vertices);
                let (l, _) = b.localize(g as u32, &vertices);
                let ghost fresh = b;
                let ghost index_before = index@;
                index.insert(key_of(c), builders.len());
                builders.push(b);
                assert forall|a: int| 0 <= a < builders@.len() implies index@.contains_key(
                    cell_key(#[trigger] builders@[a].pos),
                ) && index@[cell_key(builders@[a].pos)] == a by {
                    if a < before.len() {
                        assert(builders@[a] == before[a]);
                        if cell_key(before[a].pos) == cell_key(c) {
                            lemma_cell_key_injective(before[a].pos, c);
                        }
                    }
                }
                assert forall|k: u64| #[trigger] index@.contains_key(k) implies (index@[k] as int)
                    < builders@.len() && cell_key(builders@[index@[k] as int].pos) == k by {
                    if k != cell_key(c) {
                        assert(builders@[index@[k] as int] == before[index_before[k] as int]);
                    }
                }
                let last = builders.len() - 1;
                assert forall|a: int| 0 <= a < builders@.len() implies (
                #[trigger] builders@[a]).homed(vertices@, homes@, g + 1) by {
                    if a != last {
                        assert(builders@[a] == before[a]);
                        assert(before[a].homed(vertices@, homes@, g as int));
                    } else {
                        let b = builders@[a];
                        assert forall|h: int| 0 <= h < vertices@.len() implies (#[trigger] b.holds(h)
                            <==> (h < g + 1 && homes@[h] == b.pos)) by {
                            assert(b == fresh);
                            assert(b.local_of@ == Map::<u32, u32>::empty().insert(g as u32, l));
                        }
                    }
                }
                assert forall|h: int| 0 <= h < g + 1 implies has_cell(builders@, #[trigger] homes@[h]) by {
                    if h == g {
                        assert(builders@[last as int].pos == homes@[h]);
                    } else {
                        assert(has_cell(before, homes@[h]));
                        let a = choose|a: int| 0 <= a < before.len() && (#[trigger] before[a]).pos == homes@[h];
                        assert(builders@[a].pos == homes@[h]);
                    }
                }
            },
        }
        g = g + 1;
    }
    assert forall|a: int| 0 <= a < builders@.len() implies (#[trigger] builders@[a]).placed(
        vertices@,
        homes@,
        indices@,
        0,
    ) by {
        lemma_homed_placed(builders@[a], vertices@, homes@, indices@);
    }
    let m = indices.len();
    let mut k: usize = 0;
    while k < m
        invariant
            n == vertices@.len(),
            m == indices@.len(),
            valid_mesh(vertices@, homes@, indices@),
            n <= u32::MAX,
            k <= m,
            distinct_cells(builders@),
            indexed(index@, builders@),
            cells_cover(builders@, homes@, n as int),
            forall|a: int|
                0 <= a < builders@.len() ==> (#[trigger] builders@[a]).placed(
                    vertices@,
                    homes@,
                    indices@,
                    k as int,
                ),
        decreases m - k,
    {
        let t = indices[k];
        assert(indices@[k as int].fits(n as int));
        let c0 = homes[t.x as usize];
        let c1 = homes[t.y as usize];
        let c2 = homes[t.z as usize];
        let straddling = !(c0 == c1 && c1 == c2);
        let cells = if straddling {
            unique_cells([c0, c1, c2])
        } else {
            vec![c0]
        };
        proof {
            lemma_first_occurrences(c0, c1, c2);
            if !straddling {
                assert(cells@[0] == c0);
            }
        }
        assert(forall|c: ChunkPos| cells@.contains(c) <==> touches(homes@, t, c));
        assert(cells@.no_duplicates());
        let mut p: usize = 0;
        while p < cells.len()
            invariant
                n == vertices@.len(),
                m == indices@.len(),
                valid_mesh(vertices@, homes@, indices@),
                k < m,
                t == indices@[k as int],
                c0 == home(homes@, t, 0),
                straddling == straddles(homes@, t),
                forall|c: ChunkPos| cells@.contains(c) <==> touches(homes@, t, c),
                cells@.no_duplicates(),
                p <= cells@.len(),
                distinct_cells(builders@),
                indexed(index@, builders@),
                cells_cover(builders@, homes@, n as int),
                forall|a: int|
                    0 <= a < builders@.len() ==> if cells@.take(p as int).contains(
                        (#[trigger] builders@[a]).pos,
                    ) {
                        builders@[a].placed(vertices@, homes@, indices@, k + 1)
                    } else {
                        builders@[a].placed(vertices@, homes@, indices@, k as int)
                    },
            decreases cells@.len() - p,
        {
            let c = cells[p];
            let ghost before = builders@;
            assert(cells@.contains(c));
            match find(&index, &builders, c) {
                Some(i) => {
                    assert(!cells@.take(p as int).contains(c));
                    assert(before[i as int].placed(vertices@, homes@, indices@, k as int));
                    builders[i].place(t, c0, straddling, &vertices, &homes, &indices, k);
                    assert forall|a: int| 0 <= a < builders@.len() implies #[trigger] builders@[a].pos == before[a].pos by {
                        if a != i {
                            assert(builders@[a] == before[a]);
                        }
                    }
                    proof {
                        lemma_indexed_same_cells(index@, before, builders@);
                    }
                    assert forall|h: int| 0 <= h < n implies has_cell(builders@, #[trigger] homes@[h]) by {
                        assert(has_cell(before, homes@[h]));
                        let a = choose|a: int| 0 <= a < before.len() && (#[trigger] before[a]).pos == homes@[h];
                        assert(builders@[a].pos == homes@[h]);
                    }
                    assert forall|a: int| 0 <= a < builders@.len() implies if cells@.take(
                        p + 1,
                    ).contains((#[trigger] builders@[a]).pos) {
                        builders@[a].placed(vertices@, homes@, indices@, k + 1)
                    } else {
                        builders@[a].placed(vertices@, homes@, indices@, k as int)
                    } by {
                        assert(cells@.take(p + 1) =~= cells@.take(p as int).push(c));
                        assert(cells@.take(p + 1)[p as int] == c);
                        if a != i {
                            if cells@.take(p as int).contains(before[a].pos) {
                                let q = choose|q: int| 0 <= q < p && #[trigger] cells@.take(p as int)[q] == before[a].pos;
                                assert(cells@.take(p + 1)[q] == before[a].pos);
                            }
                            assert(builders@[a] == before[a]);
                            assert(before[a].pos != c);
                            if cells@.take(p + 1).contains(before[a].pos) {
                                let q = choose|q: int| 0 <= q < p + 1 && #[trigger] cells@.take(p + 1)[q] == before[a].pos;
                                assert(q < p);
                                assert(cells@.take(p as int)[q] == before[a].pos);
                            }
                        }
                    }
                },
                None => {
                    let h = if c == c0 { t.x } else if c == c1 { t.y } else { t.z };
                    assert(homes@[h as int] == c);
                    assert(has_cell(builders@, homes@[h as int]));
                },
            }
            p = p + 1;
        }
        assert forall|a: int| 0 <= a < builders@.len() implies (#[trigger] builders@[a]).placed(
            vertices@,
            homes@,
            indices@,
            k + 1,
        ) by {
            assert(cells@.take(cells@.len() as int) == cells@);
            if !cells@.contains(builders@[a].pos) {
                lemma_untouched(builders@[a], vertices@, homes@, indices@, k as int);
            }
        }
        k = k + 1;
    }
    let mut out: Vec<Chunk> = Vec::new();
    assert forall|k: int, c: ChunkPos|
        0 <= k < m && #[trigger] receives(homes@, indices@, k, c) implies has_chunk(out@, c)
        || has_cell(builders@, c) by {
        let t = indices@[k];
        assert(t.fits(n as int));
        assert(has_cell(builders@, homes@[t.x as int]));
        assert(has_cell(builders@, homes@[t.y as int]));
        assert(has_cell(builders@, homes@[t.z as int]));
    }
    while builders.len() > 0
        invariant
            m == indices@.len(),
            distinct_cells(builders@),
            forall|a: int|
                0 <= a < builders@.len() ==> (#[trigger] builders@[a]).placed(
                    vertices@,
                    homes@,
                    indices@,
                    m as int,
                ),
            forall|a: int|
                0 <= a < out@.len() ==> {
                    &&& (#[trigger] out@[a]).triangles@.len() > 0
                    &&& holds_received(
                        out@[a].vertices@,
                        out@[a].triangles@,
                        out@[a].pos,
                        vertices@,
                        homes@,
                        indices@,
                        m as int,
                    )
                    &&& holds_copies(out@[a].vertices@, out@[a].pos, vertices@, homes@, indices@, m as int)
                },
            forall|a: int, b: int| 0 <= a < b < out@.len() ==> out@[a].pos != out@[b].pos,
            forall|a: int, b: int|
                0 <= a < out@.len() && 0 <= b < builders@.len() ==> out@[a].pos != builders@[b].pos,
            forall|k: int, c: ChunkPos|
                0 <= k < m && #[trigger] receives(homes@, indices@, k, c) ==> has_chunk(out@, c)
                    || has_cell(builders@, c),
        decreases builders@.len(),
    {
        let ghost before = builders@;
        let ghost out_before = out@;
        let b = builders.pop().unwrap();
        assert(before[before.len() - 1] == b);
        assert(b.placed(vertices@, homes@, indices@, m as int));
        let ghost pos = b.pos;
        if b.triangles.len() > 0 {
            proof {
                lemma_copies(b, vertices@, homes@, indices@, m as int);
            }
            out.push(Chunk { pos: b.pos, vertices: b.vertices, triangles: b.triangles });
            assert(out@[out@.len() - 1].pos == pos);
        } else {
            assert forall|k: int| 0 <= k < m implies !#[trigger] receives(homes@, indices@, k, pos) by {
                if receives(homes@, indices@, k, pos) {
                    lemma_received_complete(homes@, indices@, pos, k, m as int);
                }
            }
        }
        assert forall|a: int| 0 <= a < builders@.len() implies #[trigger] builders@[a] == before[a] by {}
        assert forall|k: int, c: ChunkPos|
            0 <= k < m && #[trigger] receives(homes@, indices@, k, c) implies has_chunk(out@, c)
            || has_cell(builders@, c) by {
            if has_chunk(out_before, c) {
                let a = choose|a: int| 0 <= a < out_before.len() && (#[trigger] out_before[a]).pos == c;
                assert(out@[a] == out_before[a]);
            } else {
                let a = choose|a: int| 0 <= a < before.len() && (#[trigger] before[a]).pos == c;
                if a < before.len() - 1 {
                    assert(builders@[a] == before[a]);
                }
            }
        }
    }
    out
}

} // verus!
