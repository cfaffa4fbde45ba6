use midi_bounce::mesh::Mesh;

#[test]
fn mesh_starts_empty() {
    let mesh: Mesh<u8> = Mesh::new();
    assert_eq!(mesh.get_num_vertices(), 0);
    assert!(mesh.vertices().is_empty());
    assert!(mesh.indices().is_empty());
}

#[test]
fn mesh_add_vertex_and_triangle() {
    let mut mesh = Mesh::new();
    mesh.add_vertex((0.0f32, 1.0f32));
    mesh.add_vertex((1.0f32, 1.0f32));
    mesh.add_triangle(0, 1, 0);
    assert_eq!(mesh.get_num_vertices(), 2);
    assert_eq!(mesh.vertices(), &vec![(0.0, 1.0), (1.0, 1.0)]);
    assert_eq!(mesh.indices(), &vec![0, 1, 0]);
}

#[test]
fn mesh_add_quad_numbers_from_vertex_count() {
    let mut mesh = Mesh::new();
    mesh.add_quad('a', 'b', 'c', 'd');
    mesh.add_quad('e', 'f', 'g', 'h');
    assert_eq!(mesh.get_num_vertices(), 8);
    assert_eq!(mesh.indices(), &vec![0, 1, 2, 2, 3, 0, 4, 5, 6, 6, 7, 4]);
    assert_eq!(mesh.vertices(), &vec!['a', 'b', 'c', 'd', 'e', 'f', 'g', 'h']);
}

#[test]
fn mesh_add_quad_index_wraps_at_sixteen_bits() {
    let mut mesh = Mesh::new();
    for _ in 0..65536u32 {
        mesh.add_vertex(0u8);
    }
    mesh.add_quad(1, 2, 3, 4);
    assert_eq!(mesh.get_num_vertices(), 65540);
    assert_eq!(mesh.indices(), &vec![0, 1, 2, 2, 3, 0]);
}

#[test]
fn add_quads_appends_each_quad_in_turn() {
    let mut mesh: Mesh<u8> = Mesh::new();
    mesh.add_vertex(9);
    mesh.add_quads(&vec![(1, 2, 3, 4), (5, 6, 7, 8)]);
    assert_eq!(mesh.vertices(), &vec![9, 1, 2, 3, 4, 5, 6, 7, 8]);
    assert_eq!(mesh.indices(), &vec![1, 2, 3, 3, 4, 1, 5, 6, 7, 7, 8, 5]);
    mesh.add_quads(&vec![]);
    assert_eq!(mesh.get_num_vertices(), 9);
}
