use vstd::prelude::*;
use crate::geometry::ChunkPos;

verus! {

/// Offsets among the first `len` entries of `table` whose cell is `cell`, in order.
pub open spec fn matching(table: Seq<ChunkPos>, cell: ChunkPos, len: int) -> Seq<int>
    decreases len,
{
    if len <= 0 {
        Seq::empty()
    } else {
        let prev = matching(table, cell, len - 1);
        if table[len - 1] == cell {
            prev.push(len - 1)
        } else {
            prev
        }
    }
}

/// For each loader cell in turn, the table offsets at that cell: one entry
/// per (loader, matching chunk) pair.
pub open spec fn selection(table: Seq<ChunkPos>, loaders: Seq<ChunkPos>) -> Seq<int>
    decreases loaders.len(),
{
    if loaders.len() == 0 {
        Seq::empty()
    } else {
        selection(table, loaders.drop_last()) + matching(
            table,
            loaders.last(),
            table.len() as int,
        )
    }
}

pub open spec fn as_ints(v: Seq<usize>) -> Seq<int> {
    v.map_values(|i: usize| i as int)
}

/// The table offsets of the chunks that the loaders need, one per
/// (loader, matching chunk) pair, loaders in order, each loader's chunks in
/// table order.
pub fn select_chunks(table: &Vec<ChunkPos>, loaders: &Vec<ChunkPos>) -> (r: Vec<usize>)
    ensures
        as_ints(r@) == selection(table@, loaders@),
{
    let mut r: Vec<usize> = Vec::new();
    let mut l: usize = 0;
    while l < loaders.len()
        invariant
            l <= loaders@.len(),
            as_ints(r@) == selection(table@, loaders@.take(l as int)),
        decreases loaders@.len() - l,
    {
        let cell = loaders[l];
        let ghost base = as_ints(r@);
        let mut i: usize = 0;
        while i < table.len()
            invariant
                l < loaders@.len(),
                cell == loaders@[l as int],
                i <= table@.len(),
                as_ints(r@) == base + matching(table@, cell, i as int),
            decreases table@.len() - i,
        {
            let ghost before = r@;
            if table[i] == cell {
                r.push(i);
                assert(as_ints(r@) =~= as_ints(before).push(i as int));
                assert(base + matching(table@, cell, i + 1) =~= (base + matching(
                    table@,
                    cell,
                    i as int,
                )).push(i as int));
            }
            i = i + 1;
        }
        assert(loaders@.take(l + 1).drop_last() =~= loaders@.take(l as int));
        assert(loaders@.take(l + 1).last() == cell);
        l = l + 1;
    }
    assert(loaders@.take(loaders@.len() as int) =~= loaders@);
    r
}

/// What one tick asks of the world: despawn these child entities, then
/// spawn one child for each of these table offsets.
pub struct TickPlan {
    pub despawn: Vec<u64>,
    pub spawn: Vec<usize>,
}

/// The streaming state of one map: its table of chunk cells, and the child
/// entities now spawned, each with its cell.
pub struct Streamer {
    pub table: Vec<ChunkPos>,
    pub active: Vec<(ChunkPos, u64)>,
}

pub open spec fn handles_of(active: Seq<(ChunkPos, u64)>) -> Seq<u64> {
    active.map_values(|e: (ChunkPos, u64)| e.1)
}

impl Streamer {
    /// A streamer over `table` with nothing spawned.
    pub fn new(table: Vec<ChunkPos>) -> (s: Streamer)
        ensures
            s.table@ == table@,
            s.active@.len() == 0,
    {
        Streamer { table, active: Vec::new() }
    }

    /// Starts a tick: every spawned entity is to be despawned, and the
    /// chunks that the loaders need are to be spawned.
    pub fn begin_tick(&mut self, loaders: &Vec<ChunkPos>) -> (plan: TickPlan)
        ensures
            final(self).table@ == old(self).table@,
            final(self).active@.len() == 0,
            plan.despawn@ == handles_of(old(self).active@),
            as_ints(plan.spawn@) == selection(old(self).table@, loaders@),
    {
        let mut despawn: Vec<u64> = Vec::new();
        let mut i: usize = 0;
        while i < self.active.len()
            invariant
                i <= self.active@.len(),
                despawn@ == handles_of(self.active@).take(i as int),
            decreases self.active@.len() - i,
        {
            despawn.push(self.active[i].1);
            i = i + 1;
            assert(despawn@ =~= handles_of(self.active@).take(i as int));
        }
        assert(despawn@ =~= handles_of(self.active@));
        self.active = Vec::new();
        let spawn = select_chunks(&self.table, loaders);
        TickPlan { despawn, spawn }
    }

    /// Records that the entity `handle` was spawned for table offset `slot`.
    pub fn record_spawn(&mut self, slot: usize, handle: u64)
        requires
            (slot as int) < old(self).table@.len(),
        ensures
            final(self).table@ == old(self).table@,
            final(self).active@ == old(self).active@.push((old(self).table@[slot as int], handle)),
    {
        let cell = self.table[slot];
        self.active.push((cell, handle));
    }

    /// Ends a tick: `handles[i]` is the entity spawned for `spawn[i]`.
    pub fn finish_tick(&mut self, spawn: &Vec<usize>, handles: &Vec<u64>)
        requires
            spawn@.len() == handles@.len(),
            forall|i: int| 0 <= i < spawn@.len() ==> (#[trigger] spawn@[i] as int) < old(self).table@.len(),
        ensures
            final(self).table@ == old(self).table@,
            final(self).active@ == old(self).active@ + Seq::new(
                spawn@.len(),
                |i: int| (old(self).table@[spawn@[i] as int], handles@[i]),
            ),
    {
        let ghost start = self.active@;
        let mut i: usize = 0;
        while i < spawn.len()
            invariant
                spawn@.len() == handles@.len(),
                forall|i: int| 0 <= i < spawn@.len() ==> (#[trigger] spawn@[i] as int) < self.table@.len(),
                self.table@ == old(self).table@,
                start == old(self).active@,
                i <= spawn@.len(),
                self.active@ == start + Seq::new(i as nat, |j: int| (self.table@[spawn@[j] as int], handles@[j])),
            decreases spawn@.len() - i,
        {
            self.record_spawn(spawn[i], handles[i]);
            i = i + 1;
            assert(self.active@ =~= start + Seq::new(i as nat, |j: int| (self.table@[spawn@[j] as int], handles@[j])));
        }
    }

    /// Number of child entities now spawned.
    pub fn active_len(&self) -> (r: usize)
        ensures
            r == self.active@.len(),
    {
        self.active.len()
    }
}

pub proof fn lemma_matching(table: Seq<ChunkPos>, cell: ChunkPos, len: int)
    requires
        0 <= len <= table.len(),
    ensures
        forall|x: int|
            #[trigger] matching(table, cell, len).contains(x) <==> (0 <= x < len && table[x] == cell),
    decreases len,
{
    if len > 0 {
        lemma_matching(table, cell, len - 1);
        let prev = matching(table, cell, len - 1);
        assert forall|x: int|
            #[trigger] matching(table, cell, len).contains(x) <==> (0 <= x < len && table[x]
                == cell) by {
            if table[len - 1] == cell {
                if x == len - 1 {
                    assert(matching(table, cell, len)[prev.len() as int] == x);
                }
                if prev.contains(x) {
                    let q = choose|q: int| 0 <= q < prev.len() && prev[q] == x;
                    assert(matching(table, cell, len)[q] == x);
                }
                if matching(table, cell, len).contains(x) && x != len - 1 {
                    let q = choose|q: int| 0 <= q < prev.len() + 1 && matching(table, cell, len)[q] == x;
                    assert(prev[q] == x);
                }
            }
        }
    }
}

/// A table offset is selected exactly when some loader stands in its cell.
pub proof fn lemma_selection_exact(table: Seq<ChunkPos>, loaders: Seq<ChunkPos>)
    ensures
        forall|x: int|
            #[trigger] selection(table, loaders).contains(x) <==> (0 <= x < table.len()
                && loaders.contains(table[x])),
    decreases loaders.len(),
{
    if loaders.len() > 0 {
        let rest = loaders.drop_last();
        let last = loaders.last();
        lemma_selection_exact(table, rest);
        lemma_matching(table, last, table.len() as int);
        let a = selection(table, rest);
        let b = matching(table, last, table.len() as int);
        assert forall|x: int|
            #[trigger] selection(table, loaders).contains(x) <==> (0 <= x < table.len()
                && loaders.contains(table[x])) by {
            let s = selection(table, loaders);
            assert(s == a + b);
            if s.contains(x) {
                let q = choose|q: int| 0 <= q < s.len() && s[q] == x;
                if q < a.len() {
                    assert(a[q] == x);
                    assert(a.contains(x));
                    let l = choose|l: int| 0 <= l < rest.len() && rest[l] == table[x];
                    assert(loaders[l] == table[x]);
                } else {
                    assert(b[q - a.len()] == x);
                    assert(b.contains(x));
                    assert(loaders[loaders.len() - 1] == table[x]);
                }
            }
            if 0 <= x < table.len() && loaders.contains(table[x]) {
                let l = choose|l: int| 0 <= l < loaders.len() && loaders[l] == table[x];
                if l < loaders.len() - 1 {
                    assert(rest[l] == table[x]);
                    assert(rest.contains(table[x]));
                    assert(a.contains(x));
                    let q = choose|q: int| 0 <= q < a.len() && a[q] == x;
                    assert(s[q] == x);
                } else {
                    assert(last == table[x]);
                    assert(b.contains(x));
                    let q = choose|q: int| 0 <= q < b.len() && b[q] == x;
                    assert(s[a.len() + q] == x);
                }
            }
        }
    }
}

/// Against an empty table, no loader selects anything.
pub proof fn lemma_empty_table(loaders: Seq<ChunkPos>)
    ensures
        selection(Seq::empty(), loaders).len() == 0,
    decreases loaders.len(),
{
    if loaders.len() > 0 {
        lemma_empty_table(loaders.drop_last());
    }
}

} // verus!
