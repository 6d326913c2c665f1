use sphere_visualizer::mesh::{generate_indices, generate_vertices, GridPoint, MeshError, Sphere};

#[test]
fn four_by_four_sphere_has_sixteen_vertices() {
    let sphere = Sphere::generate(4, 4).unwrap();
    assert_eq!(sphere.vertices.len(), 16);
    assert_eq!(sphere.indices.len(), 6 * 3 * 3);
    for &i in &sphere.indices {
        assert!(i >= 0 && (i as usize) < sphere.vertices.len());
    }
}

#[test]
fn vertices_list_rings_then_sectors() {
    let vertices = generate_vertices(3, 2);
    assert_eq!(
        vertices,
        vec![
            GridPoint { ring: 0, sector: 0 },
            GridPoint { ring: 0, sector: 1 },
            GridPoint { ring: 1, sector: 0 },
            GridPoint { ring: 1, sector: 1 },
            GridPoint { ring: 2, sector: 0 },
            GridPoint { ring: 2, sector: 1 },
        ]
    );
}

#[test]
fn single_cell_gives_two_triangles() {
    assert_eq!(generate_indices(2, 2), vec![0, 1, 3, 0, 3, 2]);
}

#[test]
fn cells_are_ring_major() {
    let indices = generate_indices(3, 3);
    assert_eq!(indices.len(), 24);
    assert_eq!(&indices[0..6], &[0, 1, 4, 0, 4, 3]);
    assert_eq!(&indices[6..12], &[1, 2, 5, 1, 5, 4]);
    assert_eq!(&indices[12..18], &[3, 4, 7, 3, 7, 6]);
    assert_eq!(&indices[18..24], &[4, 5, 8, 4, 8, 7]);
}

#[test]
fn no_triangle_repeats() {
    let indices = generate_indices(5, 6);
    let mut triangles: Vec<[i32; 3]> = indices
        .chunks(3)
        .map(|t| {
            let mut t = [t[0], t[1], t[2]];
            t.sort();
            t
        })
        .collect();
    let n = triangles.len();
    triangles.sort();
    triangles.dedup();
    assert_eq!(triangles.len(), n);
}

#[test]
fn too_few_rings_or_sectors_is_invalid() {
    assert_eq!(Sphere::generate(1, 4).unwrap_err(), MeshError::InvalidTopology);
    assert_eq!(Sphere::generate(4, 1).unwrap_err(), MeshError::InvalidTopology);
    assert_eq!(Sphere::generate(-3, 4).unwrap_err(), MeshError::InvalidTopology);
    assert_eq!(Sphere::generate(0, 0).unwrap_err(), MeshError::InvalidTopology);
}

#[test]
fn smallest_sphere_is_valid() {
    let sphere = Sphere::generate(2, 2).unwrap();
    assert_eq!(sphere.ring_count, 2);
    assert_eq!(sphere.sector_count, 2);
    assert_eq!(sphere.vertices.len(), 4);
    assert_eq!(sphere.indices, vec![0, 1, 3, 0, 3, 2]);
}
