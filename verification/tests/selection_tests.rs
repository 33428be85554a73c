use rtin_terrain::selection::MyMesh;

#[test]
fn next_index_steps_through_the_list() {
    assert_eq!(MyMesh { verts: 0, index: 0 }.next_index(3), 1);
    assert_eq!(MyMesh { verts: 0, index: 1 }.next_index(3), 2);
}

#[test]
fn next_index_starts_again_after_the_last() {
    assert_eq!(MyMesh { verts: 0, index: 2 }.next_index(3), 0);
    assert_eq!(MyMesh { verts: 0, index: 7 }.next_index(3), 0);
    assert_eq!(MyMesh { verts: 0, index: 0 }.next_index(1), 0);
    assert_eq!(MyMesh { verts: 0, index: u32::MAX }.next_index(u32::MAX), 0);
}

#[test]
fn default_mark_is_the_first_terrain() {
    assert_eq!(MyMesh::default(), MyMesh { verts: 0, index: 0 });
}
