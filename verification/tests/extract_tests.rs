use rtin_terrain::error_map::generate_error_map;
use rtin_terrain::extract::extract_triangles;

fn doubled_area(n: usize, a: usize, b: usize, c: usize) -> i64 {
    let (ax, ay) = ((a % n) as i64, (a / n) as i64);
    let (bx, by) = ((b % n) as i64, (b / n) as i64);
    let (cx, cy) = ((c % n) as i64, (c / n) as i64);
    (bx - ax) * (cy - ay) - (by - ay) * (cx - ax)
}

fn five_by_five() -> Vec<u64> {
    (0..25u64).map(|i| 2 * ((7 * i * i + 3 * i) % 256)).collect()
}

#[test]
fn largest_tolerance_gives_the_two_roots() {
    for n in [3u32, 5, 9, 17, 33] {
        let terrain: Vec<u64> = (0..(n * n) as u64).map(|i| (i * i * 13) % 997).collect();
        let errors = generate_error_map(&terrain, n, n - 1);
        let last = (n * n - 1) as usize;
        let side = n as usize;
        assert_eq!(
            extract_triangles(&errors, n, u64::MAX),
            vec![0, last, side - 1, last, 0, side * (side - 1)]
        );
    }
}

#[test]
fn tolerated_centre_gives_the_two_roots() {
    let errors = generate_error_map(&five_by_five(), 5, 4);
    assert_eq!(errors[12], 784);
    assert_eq!(extract_triangles(&errors, 5, 784), vec![0, 24, 4, 24, 0, 20]);
    assert_eq!(extract_triangles(&errors, 5, 1000), vec![0, 24, 4, 24, 0, 20]);
    assert!(extract_triangles(&errors, 5, 783).len() > 6);
}

#[test]
fn zero_tolerance_on_a_bending_terrain_gives_the_finest_mesh() {
    let errors = generate_error_map(&five_by_five(), 5, 4);
    assert_eq!(
        extract_triangles(&errors, 5, 0),
        vec![
            8, 2, 7, 12, 8, 7, 8, 4, 3, 2, 8, 3, 6, 2, 1, 0, 6, 1, 6, 12, 7, 2, 6, 7, 18, 14, 13,
            12, 18, 13, 18, 24, 19, 14, 18, 19, 8, 14, 9, 4, 8, 9, 8, 12, 13, 14, 8, 13, 16, 22,
            17, 12, 16, 17, 16, 20, 21, 22, 16, 21, 18, 22, 23, 24, 18, 23, 18, 12, 17, 22, 18,
            17, 6, 10, 11, 12, 6, 11, 6, 0, 5, 10, 6, 5, 16, 10, 15, 20, 16, 15, 16, 12, 11, 10,
            16, 11
        ]
    );
    for n in [3u32, 5, 9, 17] {
        let terrain: Vec<u64> = (0..(n * n) as u64).map(|i| i * i).collect();
        let errors = generate_error_map(&terrain, n, n - 1);
        let triangles = extract_triangles(&errors, n, 0).len() / 3;
        assert_eq!(triangles, 2 * ((n - 1) * (n - 1)) as usize);
    }
}

#[test]
fn zero_tolerance_on_a_ramp_stops_at_the_roots() {
    let terrain: Vec<u64> = vec![0, 1, 2, 2, 3, 4, 4, 5, 6];
    let errors = generate_error_map(&terrain, 3, 2);
    assert_eq!(errors, vec![0u64; 9]);
    assert_eq!(extract_triangles(&errors, 3, 0), vec![0, 8, 2, 8, 0, 6]);
}

#[test]
fn flat_terrain_gives_the_two_roots_for_every_tolerance() {
    for n in [3u32, 5, 9, 17, 33, 65] {
        let terrain = vec![500u64; (n * n) as usize];
        let errors = generate_error_map(&terrain, n, n - 1);
        let last = (n * n - 1) as usize;
        let side = n as usize;
        for tolerance in [0u64, 1, 10, u64::MAX] {
            assert_eq!(
                extract_triangles(&errors, n, tolerance),
                vec![0, last, side - 1, last, 0, side * (side - 1)]
            );
        }
    }
}

#[test]
fn meshes_of_a_three_by_three_grid() {
    let terrain: Vec<u64> = vec![0, 10, 0, 20, 50, 7, 3, 9, 100];
    let errors = generate_error_map(&terrain, 3, 2);
    assert_eq!(
        extract_triangles(&errors, 3, 0),
        vec![4, 2, 1, 0, 4, 1, 4, 8, 5, 2, 4, 5, 4, 6, 7, 8, 4, 7, 4, 0, 3, 6, 4, 3]
    );
    assert_eq!(
        extract_triangles(&errors, 3, 60),
        vec![2, 0, 4, 4, 8, 5, 2, 4, 5, 4, 6, 7, 8, 4, 7, 0, 6, 4]
    );
    assert_eq!(
        extract_triangles(&errors, 3, 85),
        vec![2, 0, 4, 4, 8, 5, 2, 4, 5, 6, 8, 4, 0, 6, 4]
    );
    assert_eq!(extract_triangles(&errors, 3, 86), vec![0, 8, 2, 8, 0, 6]);
}

#[test]
fn meshes_of_a_five_by_five_grid() {
    let errors = generate_error_map(&five_by_five(), 5, 4);
    assert_eq!(
        extract_triangles(&errors, 5, 300),
        vec![
            8, 2, 7, 12, 8, 7, 4, 2, 8, 2, 0, 6, 6, 12, 7, 2, 6, 7, 18, 14, 13, 12, 18, 13, 24,
            14, 18, 14, 4, 8, 8, 12, 13, 14, 8, 13, 12, 20, 22, 18, 22, 23, 24, 18, 23, 12, 22,
            18, 10, 12, 6, 6, 0, 5, 10, 6, 5, 20, 12, 10
        ]
    );
    assert_eq!(
        extract_triangles(&errors, 5, 520),
        vec![
            2, 12, 8, 4, 2, 8, 0, 12, 2, 12, 24, 14, 14, 4, 8, 12, 14, 8, 20, 24, 12, 12, 0, 10,
            20, 12, 10
        ]
    );
    assert_eq!(
        extract_triangles(&errors, 5, 700),
        vec![4, 0, 12, 24, 4, 12, 20, 24, 12, 12, 0, 10, 20, 12, 10]
    );
}

#[test]
fn every_triangle_is_wound_the_same_way() {
    for n in [3u32, 5, 9, 17] {
        let terrain: Vec<u64> = (0..(n * n) as u64).map(|i| (i * i * 31 + 7 * i) % 613).collect();
        let errors = generate_error_map(&terrain, n, n - 1);
        for tolerance in [0u64, 50, 200, 600, 2000] {
            let mesh = extract_triangles(&errors, n, tolerance);
            assert_eq!(mesh.len() % 3, 0);
            assert!(mesh.len() >= 6);
            let mut area: i64 = 0;
            for triple in mesh.chunks(3) {
                let twice = doubled_area(n as usize, triple[0], triple[1], triple[2]);
                assert!(twice < 0, "triple {:?} on side {}", triple, n);
                area += -twice;
            }
            assert_eq!(area, 2 * ((n - 1) * (n - 1)) as i64);
        }
    }
}

#[test]
fn every_index_is_a_grid_vertex() {
    let n = 17u32;
    let terrain: Vec<u64> = (0..(n * n) as u64).map(|i| (i * 97) % 41).collect();
    let errors = generate_error_map(&terrain, n, n - 1);
    for tolerance in [0u64, 5, 20, 80] {
        let mesh = extract_triangles(&errors, n, tolerance);
        assert!(mesh.iter().all(|&i| i < (n * n) as usize));
        assert!(mesh.len() / 3 <= 2 * ((n - 1) * (n - 1)) as usize);
    }
}

#[test]
fn the_error_grid_need_not_be_an_error_map() {
    let mut errors = vec![0u64; 9];
    errors[4] = 5;
    errors[1] = 5;
    assert_eq!(
        extract_triangles(&errors, 3, 4),
        vec![4, 2, 1, 0, 4, 1, 8, 2, 4, 6, 8, 4, 0, 6, 4]
    );
}
