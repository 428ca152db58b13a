use novafractal::fractal::analysis::{
    box_count_dimension, count_boundary_boxes, estimate_area, iteration_histogram, linear_fit,
};

fn bits(v: &[f32]) -> Vec<u32> {
    v.iter().map(|x| x.to_bits()).collect()
}

#[test]
fn mixed_boxes_are_counted() {
    // A 4 by 4 frame whose left column lies inside.
    let mut v = vec![1.0f32; 16];
    for y in 0..4 {
        v[y * 4] = 10.0;
    }
    let buf = bits(&v);
    assert_eq!(count_boundary_boxes(&buf, 4, 4, 10, 1), 0);
    assert_eq!(count_boundary_boxes(&buf, 4, 4, 10, 2), 2);
    assert_eq!(count_boundary_boxes(&buf, 4, 4, 10, 3), 2);
    assert_eq!(count_boundary_boxes(&buf, 4, 4, 10, 4), 1);
    assert_eq!(count_boundary_boxes(&buf, 4, 4, 10, 100), 1);
}

#[test]
fn flat_frame_has_no_boundary() {
    for v in [1.0f32, 10.0, 11.0] {
        let buf = bits(&[v; 30]);
        for size in 1..8 {
            assert_eq!(count_boundary_boxes(&buf, 6, 5, 10, size), 0);
        }
    }
}

#[test]
fn dimension_is_fitted_to_countable_sizes() {
    let mut v = vec![1.0f32; 16];
    v[5] = 10.0;
    let buf = bits(&v);
    let fit = |points: &Vec<(usize, u64)>, _: ()| -> (u64, u64) {
        assert_eq!(points, &vec![(2, 1), (4, 1)]);
        (11, 22)
    };
    let r = box_count_dimension(&buf, 4, 4, 10, &vec![1, 2, 4], &fit);
    assert_eq!(r.counts, vec![(1, 0), (2, 1), (4, 1)]);
    assert_eq!((r.dimension, r.r_squared), (11, 22));
}

#[test]
fn dimension_of_too_few_points_is_zero() {
    let fit = |_points: &Vec<(usize, u64)>, _: ()| -> (u64, u64) { (11, 22) };
    let buf = bits(&[10.0, 1.0, 10.0, 1.0]);
    let r = box_count_dimension(&buf, 2, 2, 10, &vec![1, 2], &fit);
    assert_eq!(r.counts, vec![(1, 0), (2, 1)]);
    assert_eq!((r.dimension, r.r_squared), (0, 0));
    assert_eq!(linear_fit(&vec![(1, 1)], &fit), (0, 0));
    assert_eq!(linear_fit(&vec![(1, 1), (2, 3)], &fit), (11, 22));
}

#[test]
fn area_counts_the_pixels_inside() {
    let buf = bits(&[10.0, 9.9, 10.5, f32::NAN, 0.0]);
    let share = |(inside, all): (usize, usize)| -> u64 { (inside * 1000 + all) as u64 };
    assert_eq!(estimate_area(&buf, 10, &share), 2005);
    assert_eq!(estimate_area(&Vec::new(), 10, &share), 0);
}

#[test]
fn histogram_bins_and_overflow_bin() {
    let buf = bits(&[0.0, 0.9, 1.0, 2.5, 3.9, 50.0]);
    let bin_of = |v: u32| -> usize { f32::from_bits(v) as usize };
    let hist = iteration_histogram(&buf, 4, &bin_of);
    assert_eq!(hist, vec![2, 1, 1, 2]);
    assert_eq!(hist.iter().sum::<u64>(), 6);
}

#[test]
fn histogram_of_nothing() {
    let bin_of = |_v: u32| -> usize { 0 };
    assert_eq!(iteration_histogram(&Vec::new(), 0, &bin_of), Vec::<u64>::new());
    assert_eq!(iteration_histogram(&Vec::new(), 3, &bin_of), vec![0, 0, 0]);
}
