use collider_divider::geometry::ChunkPos;
use collider_divider::streaming::{select_chunks, Streamer};

fn cell(x: i32, z: i32) -> ChunkPos {
    ChunkPos { x, z }
}

fn tick(s: &mut Streamer, loaders: &Vec<ChunkPos>, next_handle: &mut u64) -> (Vec<u64>, Vec<usize>) {
    let plan = s.begin_tick(loaders);
    let mut handles = Vec::new();
    for _ in &plan.spawn {
        handles.push(*next_handle);
        *next_handle += 1;
    }
    s.finish_tick(&plan.spawn, &handles);
    (plan.despawn, plan.spawn)
}

#[test]
fn loader_moving_between_cells_swaps_the_active_chunk() {
    let mut s = Streamer::new(vec![cell(0, 0), cell(1, 0), cell(0, 1)]);
    let mut next = 100u64;
    let (despawn, spawn) = tick(&mut s, &vec![cell(1, 0)], &mut next);
    assert!(despawn.is_empty());
    assert_eq!(spawn, vec![1]);
    assert_eq!(s.active, vec![(cell(1, 0), 100)]);

    let (despawn, spawn) = tick(&mut s, &vec![cell(0, 0)], &mut next);
    assert_eq!(despawn, vec![100]);
    assert_eq!(spawn, vec![0]);
    assert_eq!(s.active, vec![(cell(0, 0), 101)]);

    for _ in 0..5 {
        tick(&mut s, &vec![cell(0, 0)], &mut next);
        assert_eq!(s.active_len(), 1);
        assert_eq!(s.active[0].0, cell(0, 0));
    }
}

#[test]
fn empty_table_spawns_nothing() {
    let mut s = Streamer::new(Vec::new());
    let mut next = 1u64;
    let (_, spawn) = tick(&mut s, &vec![cell(0, 0), cell(-3, 7)], &mut next);
    assert!(spawn.is_empty());
    assert_eq!(s.active_len(), 0);
}

#[test]
fn no_loaders_or_no_match_spawn_nothing() {
    let table = vec![cell(0, 0), cell(1, 0)];
    assert!(select_chunks(&table, &Vec::new()).is_empty());
    assert!(select_chunks(&table, &vec![cell(5, 5)]).is_empty());
}

#[test]
fn one_entry_per_loader_and_matching_chunk() {
    let table = vec![cell(2, 0), cell(0, 0), cell(2, 0)];
    let loaders = vec![cell(2, 0), cell(0, 0), cell(2, 0)];
    assert_eq!(select_chunks(&table, &loaders), vec![0, 2, 1, 0, 2]);
}
