use collider_divider::geometry::{triangles_from_u16, triangles_from_u32, ChunkPos, Index, Vertex};
use collider_divider::partition::{split_mesh, Chunk};

fn vert(x: f32, y: f32, z: f32) -> Vertex {
    Vertex { x: x.to_bits(), y: y.to_bits(), z: z.to_bits() }
}

fn cell(x: i32, z: i32) -> ChunkPos {
    ChunkPos { x, z }
}

fn tri(x: u32, y: u32, z: u32) -> Index {
    Index { x, y, z }
}

fn chunk_at(out: &[Chunk], pos: ChunkPos) -> &Chunk {
    let found: Vec<&Chunk> = out.iter().filter(|c| c.pos == pos).collect();
    assert_eq!(found.len(), 1, "expected exactly one chunk at {:?}", pos);
    found[0]
}

fn resolve(chunk: &Chunk, t: &Index) -> [Vertex; 3] {
    [
        chunk.vertices[t.x as usize],
        chunk.vertices[t.y as usize],
        chunk.vertices[t.z as usize],
    ]
}

#[test]
fn single_cell_mesh_stays_whole() {
    let verts = vec![vert(0.0, 0.0, 0.0), vert(1.0, 0.0, 0.0), vert(0.0, 0.0, 1.0), vert(1.0, 2.0, 1.0)];
    let homes = vec![cell(0, 0); 4];
    let tris = vec![tri(0, 1, 2), tri(1, 3, 2)];
    let out = split_mesh(verts.clone(), homes, tris.clone());
    assert_eq!(out.len(), 1);
    let c = chunk_at(&out, cell(0, 0));
    assert_eq!(c.vertices, verts);
    assert_eq!(c.triangles, tris);
}

#[test]
fn triangle_over_three_cells_is_in_each() {
    let verts = vec![vert(1.0, 0.0, 1.0), vert(16.0, 0.0, 1.0), vert(1.0, 5.0, 16.0)];
    let homes = vec![cell(0, 0), cell(1, 0), cell(0, 1)];
    let out = split_mesh(verts.clone(), homes, vec![tri(0, 1, 2)]);
    assert_eq!(out.len(), 3);
    for pos in [cell(0, 0), cell(1, 0), cell(0, 1)] {
        let c = chunk_at(&out, pos);
        assert_eq!(c.triangles.len(), 1);
        assert_eq!(c.vertices.len(), 3);
        assert_eq!(resolve(c, &c.triangles[0]), [verts[0], verts[1], verts[2]]);
    }
    // the home vertex keeps local offset 0, the copies follow in corner order
    let b = chunk_at(&out, cell(1, 0));
    assert_eq!(b.vertices, vec![verts[1], verts[0], verts[2]]);
    assert_eq!(b.triangles, vec![tri(1, 0, 2)]);
}

#[test]
fn two_corners_in_one_cell_place_the_triangle_once() {
    let verts = vec![vert(1.0, 0.0, 1.0), vert(2.0, 0.0, 1.0), vert(20.0, 0.0, 1.0)];
    let homes = vec![cell(0, 0), cell(0, 0), cell(1, 0)];
    let out = split_mesh(verts.clone(), homes, vec![tri(0, 1, 2)]);
    assert_eq!(out.len(), 2);
    let a = chunk_at(&out, cell(0, 0));
    assert_eq!(a.triangles, vec![tri(0, 1, 2)]);
    assert_eq!(a.vertices, verts);
    let b = chunk_at(&out, cell(1, 0));
    assert_eq!(b.triangles, vec![tri(1, 2, 0)]);
    assert_eq!(b.vertices, vec![verts[2], verts[0], verts[1]]);
}

#[test]
fn cell_already_holding_all_corners_skips_a_later_triangle() {
    // The second triangle reuses the first one's corners. The cell of
    // vertex 1 already holds copies of all three and is not the home of the
    // second triangle's first corner, so it does not take it.
    let verts = vec![vert(1.0, 0.0, 1.0), vert(16.0, 0.0, 1.0), vert(1.0, 0.0, 16.0)];
    let homes = vec![cell(0, 0), cell(1, 0), cell(0, 1)];
    let out = split_mesh(verts, homes, vec![tri(0, 1, 2), tri(0, 2, 1)]);
    assert_eq!(chunk_at(&out, cell(0, 0)).triangles.len(), 2);
    assert_eq!(chunk_at(&out, cell(1, 0)).triangles.len(), 1);
    assert_eq!(chunk_at(&out, cell(0, 1)).triangles.len(), 1);
}

#[test]
fn cells_without_triangles_are_dropped() {
    let verts = vec![vert(1.0, 0.0, 1.0), vert(2.0, 0.0, 1.0), vert(1.0, 0.0, 2.0), vert(100.0, 0.0, 100.0)];
    let homes = vec![cell(0, 0), cell(0, 0), cell(0, 0), cell(6, 6)];
    let out = split_mesh(verts, homes, vec![tri(0, 1, 2)]);
    assert_eq!(out.len(), 1);
    assert_eq!(out[0].pos, cell(0, 0));
}

#[test]
fn empty_mesh_gives_empty_table() {
    let verts = vec![vert(1.0, 0.0, 1.0), vert(50.0, 0.0, 1.0)];
    let out = split_mesh(verts, vec![cell(0, 0), cell(3, 0)], Vec::new());
    assert!(out.is_empty());
    let out = split_mesh(Vec::new(), Vec::new(), Vec::new());
    assert!(out.is_empty());
}

fn strip_mesh() -> (Vec<Vertex>, Vec<ChunkPos>, Vec<Index>) {
    // a 4 x 2 grid of vertices, 15 units apart, over cells of width 15
    let mut verts = Vec::new();
    let mut homes = Vec::new();
    for row in 0..2 {
        for col in 0..4 {
            verts.push(vert(col as f32 * 15.0, 0.0, row as f32 * 15.0));
            homes.push(cell(col, row));
        }
    }
    let mut tris = Vec::new();
    for col in 0..3u32 {
        tris.push(tri(col, col + 1, col + 4));
        tris.push(tri(col + 1, col + 5, col + 4));
    }
    (verts, homes, tris)
}

#[test]
fn every_triangle_is_covered_without_orphans() {
    let (verts, homes, tris) = strip_mesh();
    let out = split_mesh(verts.clone(), homes.clone(), tris.clone());
    for c in &out {
        assert!(!c.triangles.is_empty());
        for t in &c.triangles {
            assert!((t.x as usize) < c.vertices.len());
            assert!((t.y as usize) < c.vertices.len());
            assert!((t.z as usize) < c.vertices.len());
        }
    }
    for t in &tris {
        let home = chunk_at(&out, homes[t.x as usize]);
        let want = [verts[t.x as usize], verts[t.y as usize], verts[t.z as usize]];
        assert!(home.triangles.iter().any(|l| resolve(home, l) == want));
    }
}

#[test]
fn partitioning_twice_gives_same_cells_and_counts() {
    let (verts, homes, tris) = strip_mesh();
    let first = split_mesh(verts.clone(), homes.clone(), tris.clone());
    let second = split_mesh(verts, homes, tris);
    assert_eq!(first.len(), second.len());
    for c in &first {
        assert_eq!(chunk_at(&second, c.pos).triangles.len(), c.triangles.len());
    }
}

#[test]
fn sixteen_bit_indices_are_widened_and_grouped() {
    let raw: Vec<u16> = vec![0, 1, 2, 2, 1, 65535, 7];
    assert_eq!(triangles_from_u16(&raw), vec![tri(0, 1, 2), tri(2, 1, 65535)]);
    assert!(triangles_from_u16(&vec![4, 5]).is_empty());
}

#[test]
fn thirty_two_bit_indices_are_grouped() {
    let raw: Vec<u32> = vec![3, 4, 5, 70000, 1, 0];
    assert_eq!(triangles_from_u32(&raw), vec![tri(3, 4, 5), tri(70000, 1, 0)]);
    assert_eq!(Index::from([9u32, 8, 7]), tri(9, 8, 7));
}
