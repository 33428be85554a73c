use rtin_terrain::heightmaps::{Heightfield, TerrainError};
use rtin_terrain::terrain::{
    apply_heightmap, assemble_mesh, build_mesh, convert_indices, create_mesh_chunk,
    generate_plane_vertices, getindexcount, MeshBuffers, Position, MAX_MESH_SIDE,
};

fn gray_png(width: u32, height: u32, levels: &[u8]) -> Vec<u8> {
    let img = image::GrayImage::from_raw(width, height, levels.to_vec()).unwrap();
    let mut bytes: Vec<u8> = Vec::new();
    image::DynamicImage::ImageLuma8(img)
        .write_to(&mut std::io::Cursor::new(&mut bytes), image::ImageOutputFormat::Png)
        .unwrap();
    bytes
}

fn flat_field() -> Heightfield {
    Heightfield::from_samples(5, 5, vec![128; 25]).unwrap()
}

fn check_lengths(mesh: &MeshBuffers) {
    assert_eq!(mesh.indices.len() % 3, 0);
    assert_eq!(mesh.positions.len(), mesh.indices.len());
    assert_eq!(mesh.normals.len(), mesh.indices.len());
    assert_eq!(mesh.uvs.len(), mesh.indices.len());
    let run: Vec<u32> = (0..mesh.indices.len() as u32).collect();
    assert_eq!(mesh.indices, run);
    assert!(mesh.normals.iter().all(|&n| n == (0, 1, 0)));
    assert!(mesh.uvs.iter().all(|&uv| uv == (0, 0)));
}

#[test]
fn getindexcount_counts_from_zero() {
    assert_eq!(getindexcount(0), Vec::<u32>::new());
    assert_eq!(getindexcount(1), vec![0]);
    assert_eq!(getindexcount(6), vec![0, 1, 2, 3, 4, 5]);
    assert_eq!(getindexcount(1000).len(), 1000);
    assert_eq!(getindexcount(1000)[999], 999);
}

#[test]
fn convert_indices_gives_column_and_row() {
    let verts = convert_indices(&vec![0, 4, 24, 20, 12, 7], 5);
    assert_eq!(
        verts,
        vec![
            Position { x: 0, y: 0, z: 0 },
            Position { x: 4, y: 0, z: 0 },
            Position { x: 4, y: 0, z: 4 },
            Position { x: 0, y: 0, z: 4 },
            Position { x: 2, y: 0, z: 2 },
            Position { x: 2, y: 0, z: 1 },
        ]
    );
    assert_eq!(convert_indices(&vec![], 5), vec![]);
}

#[test]
fn apply_heightmap_samples_row_z_and_column_x() {
    let samples: Vec<u8> = (0..25u8).collect();
    let field = Heightfield::from_samples(5, 5, samples).unwrap();
    let mut verts = vec![
        Position { x: 0, y: 0, z: 0 },
        Position { x: 4, y: 9, z: 0 },
        Position { x: 1, y: 0, z: 3 },
        Position { x: 3, y: 0, z: 1 },
        Position { x: 4, y: 0, z: 4 },
    ];
    apply_heightmap(&mut verts, &field, 10);
    assert_eq!(
        verts,
        vec![
            Position { x: 0, y: 0, z: 0 },
            Position { x: 4, y: 40, z: 0 },
            Position { x: 1, y: 160, z: 3 },
            Position { x: 3, y: 80, z: 1 },
            Position { x: 4, y: 240, z: 4 },
        ]
    );
}

#[test]
fn assemble_mesh_keeps_every_occurrence_of_a_vertex() {
    let samples: Vec<u8> = (0..25u8).collect();
    let field = Heightfield::from_samples(5, 5, samples).unwrap();
    let mesh = assemble_mesh(&vec![0, 24, 4, 24, 0, 20], &field, 3);
    check_lengths(&mesh);
    assert_eq!(mesh.extent, 4);
    assert_eq!(
        mesh.positions,
        vec![
            Position { x: 0, y: 0, z: 0 },
            Position { x: 4, y: 72, z: 4 },
            Position { x: 4, y: 12, z: 0 },
            Position { x: 4, y: 72, z: 4 },
            Position { x: 0, y: 0, z: 0 },
            Position { x: 0, y: 60, z: 4 },
        ]
    );
    assert_eq!(mesh.indices, vec![0, 1, 2, 3, 4, 5]);
}

#[test]
fn flat_grid_of_side_five() {
    let field = flat_field();
    assert_eq!(
        rtin_terrain::error_map::generate_error_map(&field.scale_heights(1000), 5, 4),
        vec![0u64; 25]
    );
    let indices = field.mesh_indices(1000, 0);
    assert_eq!(indices, vec![0, 24, 4, 24, 0, 20]);
    let mut first: Vec<usize> = indices[0..3].to_vec();
    let mut second: Vec<usize> = indices[3..6].to_vec();
    first.sort();
    second.sort();
    assert_eq!(first, vec![0, 4, 24]);
    assert_eq!(second, vec![0, 20, 24]);

    let plane = convert_indices(&indices, 5);
    assert_eq!(plane.len(), 6);
    assert!(plane.iter().all(|p| p.y == 0));
    assert!(plane.iter().all(|p| (p.x == 0 || p.x == 4) && (p.z == 0 || p.z == 4)));

    let mesh = build_mesh(&field, 0, 0).unwrap();
    check_lengths(&mesh);
    assert_eq!(mesh.positions.len(), 6);
    assert!(mesh.positions.iter().all(|p| p.y == 0));
    assert!(mesh
        .positions
        .iter()
        .all(|p| (p.x == 0 || p.x == mesh.extent) && (p.z == 0 || p.z == mesh.extent)));

    let mesh = build_mesh(&field, 1000, 0).unwrap();
    assert_eq!(
        mesh.positions,
        vec![
            Position { x: 0, y: 128000, z: 0 },
            Position { x: 4, y: 128000, z: 4 },
            Position { x: 4, y: 128000, z: 0 },
            Position { x: 4, y: 128000, z: 4 },
            Position { x: 0, y: 128000, z: 0 },
            Position { x: 0, y: 128000, z: 4 },
        ]
    );
}

#[test]
fn spike_in_the_centre() {
    let mut samples = vec![0u8; 25];
    samples[12] = 255;
    let field = Heightfield::from_samples(5, 5, samples).unwrap();
    let mesh = build_mesh(&field, 1000, 5).unwrap();
    check_lengths(&mesh);
    let triangles = mesh.indices.len() / 3;
    assert_eq!(triangles, 24);
    assert!(triangles > 2 && triangles <= 32);
    let centre = Position { x: 2, y: 255000, z: 2 };
    assert!(mesh.positions.contains(&centre));
    assert!(mesh.positions.iter().all(|p| *p == centre || p.y == 0));
}

#[test]
fn buffers_have_one_length() {
    for n in [3u32, 5, 9, 17] {
        let samples: Vec<u8> = (0..n * n).map(|i| ((i * i * 31 + 7 * i) % 251) as u8).collect();
        let field = Heightfield::from_samples(n, n, samples).unwrap();
        for tolerance in [0u64, 40, 200, 900, u64::MAX] {
            let mesh = build_mesh(&field, 4, tolerance).unwrap();
            check_lengths(&mesh);
            assert_eq!(mesh.extent, n - 1);
            assert_eq!(mesh.indices.len(), field.mesh_indices(4, tolerance).len());
            for p in mesh.positions.iter() {
                assert!(p.x <= mesh.extent && p.z <= mesh.extent);
                assert_eq!(p.y, 4 * field.sample(p.z, p.x) as u64);
            }
        }
    }
}

#[test]
fn building_twice_gives_the_same_buffers() {
    let samples: Vec<u8> = (0..81u32).map(|i| ((31 * i * i + 17 * i + 5) % 256) as u8).collect();
    let bytes = gray_png(9, 9, &samples);
    let first = create_mesh_chunk(&bytes, 3, 400).unwrap();
    let second = create_mesh_chunk(&bytes, 3, 400).unwrap();
    assert_eq!(first.positions, second.positions);
    assert_eq!(first.indices, second.indices);
    assert_eq!(first.normals, second.normals);
    assert_eq!(first.uvs, second.uvs);
    assert_eq!(first.extent, second.extent);
    assert_eq!(first.indices.len(), 3 * 98);
    let field = Heightfield::from_samples(9, 9, samples).unwrap();
    let third = build_mesh(&field, 3, 400).unwrap();
    assert_eq!(first.positions, third.positions);
    assert_eq!(first.indices, third.indices);
}

#[test]
fn create_mesh_chunk_passes_the_errors_on() {
    assert_eq!(create_mesh_chunk(b"junk", 1, 0).err(), Some(TerrainError::DecodeError));
    assert_eq!(
        create_mesh_chunk(&gray_png(4, 4, &[0; 16]), 1, 0).err(),
        Some(TerrainError::ShapeError)
    );
    assert_eq!(
        create_mesh_chunk(&gray_png(5, 3, &[0; 15]), 1, 0).err(),
        Some(TerrainError::ShapeError)
    );
}

#[test]
fn create_mesh_chunk_of_a_small_image() {
    let mesh = create_mesh_chunk(&gray_png(3, 3, &[0, 10, 0, 20, 50, 7, 3, 9, 100]), 1, 85).unwrap();
    check_lengths(&mesh);
    assert_eq!(mesh.extent, 2);
    assert_eq!(
        mesh.positions,
        vec![
            Position { x: 2, y: 0, z: 0 },
            Position { x: 0, y: 0, z: 0 },
            Position { x: 1, y: 50, z: 1 },
            Position { x: 1, y: 50, z: 1 },
            Position { x: 2, y: 100, z: 2 },
            Position { x: 2, y: 7, z: 1 },
            Position { x: 2, y: 0, z: 0 },
            Position { x: 1, y: 50, z: 1 },
            Position { x: 2, y: 7, z: 1 },
            Position { x: 0, y: 3, z: 2 },
            Position { x: 2, y: 100, z: 2 },
            Position { x: 1, y: 50, z: 1 },
            Position { x: 0, y: 0, z: 0 },
            Position { x: 0, y: 3, z: 2 },
            Position { x: 1, y: 50, z: 1 },
        ]
    );
}

#[test]
fn grids_above_the_largest_mesh_side_are_refused() {
    assert_eq!(MAX_MESH_SIDE, 16385);
    let side: u32 = 32769;
    let samples = vec![0u8; side as usize * side as usize];
    let field = Heightfield::from_samples(side, side, samples).unwrap();
    assert_eq!(build_mesh(&field, 1, u64::MAX).err(), Some(TerrainError::MeshTooLarge));
}

#[test]
fn plane_of_one_square() {
    assert_eq!(
        generate_plane_vertices(0),
        vec![
            Position { x: 0, y: 0, z: 0 },
            Position { x: 1, y: 0, z: 0 },
            Position { x: 1, y: 0, z: 1 },
            Position { x: 0, y: 0, z: 0 },
            Position { x: 1, y: 0, z: 1 },
            Position { x: 0, y: 0, z: 1 },
        ]
    );
}

#[test]
fn plane_of_four_squares() {
    let verts = generate_plane_vertices(1);
    assert_eq!(verts.len(), 24);
    let firsts: Vec<Position> = verts.chunks(6).map(|square| square[0]).collect();
    assert_eq!(
        firsts,
        vec![
            Position { x: 0, y: 0, z: 0 },
            Position { x: 0, y: 0, z: 1 },
            Position { x: 1, y: 0, z: 0 },
            Position { x: 1, y: 0, z: 1 },
        ]
    );
    assert_eq!(
        verts[18..24].to_vec(),
        vec![
            Position { x: 1, y: 0, z: 1 },
            Position { x: 2, y: 0, z: 1 },
            Position { x: 2, y: 0, z: 2 },
            Position { x: 1, y: 0, z: 1 },
            Position { x: 2, y: 0, z: 2 },
            Position { x: 1, y: 0, z: 2 },
        ]
    );
}

#[test]
fn plane_has_six_vertices_for_each_square() {
    for detail in 0..6u32 {
        let side = 1u32 << detail;
        let verts = generate_plane_vertices(detail);
        assert_eq!(verts.len(), 6 * (side * side) as usize);
        assert!(verts.iter().all(|p| p.x <= side && p.z <= side && p.y == 0));
        assert_eq!(verts[verts.len() - 2], Position { x: side, y: 0, z: side });
    }
}
