use sphere_visualizer::resample::{bipolar_interpolation, resample, rescale, ResampleError};

#[test]
fn same_length_is_identity() {
    let source = vec![3, 1, 4, 1, 5];
    assert_eq!(resample(&source, 5).unwrap(), source);
}

#[test]
fn empty_source_fails() {
    assert_eq!(resample(&[], 4).unwrap_err(), ResampleError::EmptySource);
    assert_eq!(resample(&[], 0).unwrap_err(), ResampleError::EmptySource);
}

#[test]
fn zero_length_destination_is_empty() {
    assert_eq!(resample(&[1, 2, 3], 0).unwrap(), Vec::<u32>::new());
}

#[test]
fn upsampling_interpolates() {
    assert_eq!(resample(&[0, 100], 4).unwrap(), vec![0, 50, 100, 100]);
    assert_eq!(resample(&[7], 3).unwrap(), vec![7, 7, 7]);
}

#[test]
fn upsampling_stays_in_range() {
    let source = vec![40, 10, 90, 25, 60];
    for m in 6..40 {
        for v in resample(&source, m).unwrap() {
            assert!((10..=90).contains(&v));
        }
    }
}

#[test]
fn downsampling_takes_span_maximum() {
    assert_eq!(resample(&[1, 9, 2, 3, 8, 4], 3).unwrap(), vec![1, 9, 8]);
    assert_eq!(resample(&[5, 1, 7], 2).unwrap(), vec![5, 7]);
}

#[test]
fn downsampling_keeps_a_lone_peak() {
    let mut source = vec![0u32; 100];
    source[37] = 1000;
    let out = resample(&source, 10).unwrap();
    assert_eq!(out.iter().copied().max(), Some(1000));
}

#[test]
fn downsampling_dominates_interpolation() {
    let source: Vec<u32> = (0..50u32).map(|i| (i * 37) % 23).collect();
    let n = source.len();
    for m in 1..n {
        let out = resample(&source, m).unwrap();
        for (i, &v) in out.iter().enumerate() {
            let num = (i * n) as u64;
            let a = (num / m as u64) as usize;
            let t = num % m as u64;
            let interpolated = if t == 0 {
                source[a]
            } else {
                bipolar_interpolation(source[a], source[a + 1], t, m as u64)
            };
            assert!(v >= interpolated);
        }
    }
}

#[test]
fn blend_values() {
    assert_eq!(bipolar_interpolation(10, 20, 1, 2), 15);
    assert_eq!(bipolar_interpolation(0, 100, 1, 3), 33);
    assert_eq!(bipolar_interpolation(8, 2, 0, 5), 8);
    assert_eq!(bipolar_interpolation(8, 2, 5, 5), 2);
    assert_eq!(bipolar_interpolation(u32::MAX, u32::MAX, 3, 7), u32::MAX);
}

#[test]
fn rescale_fills_destination() {
    let mut destination = [0u32; 3];
    rescale(&[4, 8], &mut destination);
    assert_eq!(destination, [4, 6, 8]);
}

#[test]
fn rescale_empty_onto_empty() {
    let mut destination: [u32; 0] = [];
    rescale(&[], &mut destination);
    assert_eq!(destination.len(), 0);
}
