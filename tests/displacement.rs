use sphere_visualizer::displacement::{
    displacement_weights, quadrant_mappings, spectral_energy, BandMapping, SpectralEnergy,
};
use sphere_visualizer::mesh::Sphere;

fn mapping(source_start: usize, source_end: usize, dest_start: usize, dest_end: usize) -> BandMapping {
    BandMapping { source_start, source_end, dest_start, dest_end }
}

#[test]
fn unmapped_vertices_stay_at_rest() {
    let spectrum = [0, 10, 20, 30];
    let weights = displacement_weights(&spectrum, &[mapping(1, 3, 0, 2)], 4);
    assert_eq!(weights, vec![10, 20, 0, 0]);
}

#[test]
fn later_mappings_overwrite() {
    let spectrum = [5, 6, 7, 8];
    let weights = displacement_weights(&spectrum, &[mapping(0, 4, 0, 4), mapping(3, 4, 1, 3)], 5);
    assert_eq!(weights, vec![5, 8, 8, 8, 0]);
}

#[test]
fn empty_mapping_list_gives_zero_weights() {
    assert_eq!(displacement_weights(&[1, 2], &[], 3), vec![0, 0, 0]);
}

#[test]
fn quadrants_split_range() {
    let m = quadrant_mappings(10, 4, 2, 10);
    assert_eq!(
        m,
        vec![mapping(0, 4, 2, 4), mapping(4, 10, 4, 6), mapping(0, 4, 6, 8), mapping(4, 10, 8, 10)]
    );
}

#[test]
fn sphere_mappings_cover_the_body() {
    let sphere = Sphere::generate(10, 10).unwrap();
    let m = sphere.band_mappings(2048, 100);
    assert_eq!(
        m,
        vec![
            mapping(0, 100, 10, 30),
            mapping(100, 2048, 30, 50),
            mapping(0, 100, 50, 70),
            mapping(100, 2048, 70, 90),
        ]
    );
}

#[test]
fn silence_leaves_rest_pose_and_stops_rotation() {
    let sphere = Sphere::generate(10, 10).unwrap();
    let spectrum = vec![0u32; 2048];
    let m = sphere.band_mappings(spectrum.len(), 100);
    let weights = displacement_weights(&spectrum, &m, sphere.vertices.len());
    assert_eq!(weights, vec![0; 100]);
    assert_eq!(spectral_energy(&spectrum), None);
}

#[test]
fn energy_of_a_spectrum() {
    assert_eq!(spectral_energy(&[1, 3, 2]), Some(SpectralEnergy { total: 6, peak: 3 }));
    assert_eq!(spectral_energy(&[]), None);
    assert_eq!(
        spectral_energy(&[u32::MAX, u32::MAX]),
        Some(SpectralEnergy { total: 2 * u32::MAX as u128, peak: u32::MAX })
    );
}

#[test]
fn loud_band_moves_its_quadrant() {
    let sphere = Sphere::generate(6, 4).unwrap();
    let mut spectrum = vec![0u32; 20];
    spectrum[2] = 500;
    let m = sphere.band_mappings(spectrum.len(), 5);
    let weights = displacement_weights(&spectrum, &m, sphere.vertices.len());
    assert_eq!(weights.len(), 24);
    assert!(weights[4..8].contains(&500));
    assert!(weights[12..16].contains(&500));
    assert!(weights[8..12].iter().all(|&w| w == 0));
    assert!(weights[..4].iter().all(|&w| w == 0));
    assert!(weights[20..].iter().all(|&w| w == 0));
}
