use knn_digits::dataset_transformer_fn::{
    bw, linear_noise, nonlinear_noise, radial_noise, radial_noise_drawn, saturate_drawn,
};
use knn_digits::dataset_transformers::{Mutator, PictureVectorTransformer, apply_mutator, normalize, run_transformer};
use knn_digits::picture::{ClassifiedPicture, Picture, PictureClass};

fn rec(rows: &[&[u8]], label: i32) -> ClassifiedPicture {
    ClassifiedPicture {
        picture: Picture { data: rows.iter().map(|r| r.to_vec()).collect() },
        class: PictureClass { numerical_value: label },
    }
}

#[test]
fn bw_sets_non_zero_samples_to_full() {
    let r = bw(rec(&[&[0, 1], &[128, 0]], 3));
    assert_eq!(r.picture.data, vec![vec![0, 255], vec![255, 0]]);
    assert_eq!(r.class.numerical_value, 3);
}

#[test]
fn saturate_drawn_uses_the_draws() {
    let draws = vec![vec![0, 4], vec![1, 0]];
    let r = saturate_drawn(rec(&[&[7, 8], &[9, 10]], 1), &draws);
    assert_eq!(r.picture.data, vec![vec![255, 8], vec![9, 255]]);
}

#[test]
fn linear_noise_with_certain_hits_saturates_everything() {
    let r = linear_noise(rec(&[&[1, 2], &[3, 4]], 2), 1);
    assert_eq!(r.picture.data, vec![vec![255, 255], vec![255, 255]]);
    assert_eq!(r.class.numerical_value, 2);
}

#[test]
fn linear_noise_keeps_or_saturates() {
    let input = rec(&[&[1, 2, 3], &[4, 5, 6], &[7, 8, 9]], 0);
    let r = linear_noise(input.clone(), 3);
    for i in 0..3 {
        for j in 0..3 {
            let v = r.picture.data[i][j];
            assert!(v == input.picture.data[i][j] || v == 255);
        }
    }
}

#[test]
fn radial_noise_levels() {
    // one centre at (0, 0) with radius 3: distances 0, 1, 2 give 255, 170, 85
    let input = rec(&[&[0, 0, 0], &[0, 0, 0], &[0, 0, 200]], 1);
    let r = radial_noise(input, &vec![(0, 0)], 3);
    assert_eq!(r.picture.data, vec![vec![255, 170, 85], vec![170, 170, 85], vec![85, 85, 200]]);
}

#[test]
fn radial_noise_without_centres_changes_nothing() {
    let input = rec(&[&[5, 6], &[7, 8]], 1);
    let r = radial_noise(input.clone(), &vec![], 3);
    assert_eq!(r.picture.data, input.picture.data);
}

#[test]
fn nonlinear_noise_with_every_sample_a_centre_is_full() {
    let r = nonlinear_noise(rec(&[&[0, 9], &[1, 0]], 4), 1, 3);
    assert_eq!(r.picture.data, vec![vec![255, 255], vec![255, 255]]);
    assert_eq!(r.class.numerical_value, 4);
}

#[test]
fn nonlinear_noise_never_darkens() {
    let input = rec(&[&[10, 20, 30], &[40, 50, 60], &[70, 80, 90]], 0);
    let r = nonlinear_noise(input.clone(), 4, 2);
    for i in 0..3 {
        for j in 0..3 {
            assert!(r.picture.data[i][j] >= input.picture.data[i][j]);
        }
    }
}

#[test]
fn pipeline_runs_mutators_in_order_and_keeps_order() {
    let mut t = PictureVectorTransformer::create(vec![rec(&[&[0, 3], &[0, 0]], 1), rec(&[&[9, 0], &[0, 0]], 2)]);
    t.add_mutator(Mutator::Bw);
    t.add_mutator(Mutator::LinearNoise { rand_range: 1 });
    let out = run_transformer(t);
    assert_eq!(out.len(), 2);
    assert_eq!(out[0].class.numerical_value, 1);
    assert_eq!(out[1].class.numerical_value, 2);
    assert_eq!(out[0].picture.data, vec![vec![255, 255], vec![255, 255]]);
}

#[test]
fn pipeline_without_mutators_is_identity() {
    let input = vec![rec(&[&[1, 2], &[3, 4]], 1), rec(&[&[5, 6], &[7, 8]], 2)];
    let out = run_transformer(PictureVectorTransformer::create(input.clone()));
    assert_eq!(out.len(), 2);
    assert_eq!(out[0].picture.data, input[0].picture.data);
    assert_eq!(out[1].picture.data, input[1].picture.data);
}

#[test]
fn apply_mutator_bw() {
    let r = apply_mutator(Mutator::Bw, rec(&[&[0, 2], &[2, 0]], 1));
    assert_eq!(r.picture.data, vec![vec![0, 255], vec![255, 0]]);
}

#[test]
fn normalize_binarizes_then_only_brightens() {
    let input = vec![rec(&[&[0, 0, 0], &[0, 5, 0], &[0, 0, 0]], 6)];
    let out = normalize(input);
    assert_eq!(out.len(), 1);
    assert_eq!(out[0].class.numerical_value, 6);
    assert_eq!(out[0].picture.data[1][1], 255);
}

#[test]
fn radial_noise_drawn_makes_centres_of_zero_draws() {
    let input = rec(&[&[0, 0, 0], &[0, 0, 0], &[0, 0, 200]], 5);
    let draws = vec![vec![3, 1, 7], vec![2, 9, 4], vec![0, 6, 8]];
    let r = radial_noise_drawn(input, &draws, 3);
    assert_eq!(r.picture.data, vec![vec![85, 85, 85], vec![170, 170, 85], vec![255, 170, 200]]);
    assert_eq!(r.class.numerical_value, 5);
}

#[test]
fn radial_noise_drawn_without_zero_draws_changes_nothing() {
    let input = rec(&[&[5, 6], &[7, 8]], 1);
    let r = radial_noise_drawn(input.clone(), &vec![vec![1, 2], vec![3, 4]], 3);
    assert_eq!(r.picture.data, input.picture.data);
}

#[test]
fn radial_noise_drawn_matches_radial_noise_on_the_same_centres() {
    let input = rec(&[&[1, 2, 3, 4], &[5, 6, 7, 8], &[9, 10, 11, 12], &[13, 14, 15, 16]], 0);
    let draws = vec![vec![1, 0, 1, 1], vec![1, 1, 1, 1], vec![1, 1, 1, 0], vec![1, 1, 1, 1]];
    let a = radial_noise_drawn(input.clone(), &draws, 2);
    let b = radial_noise(input, &vec![(0, 1), (2, 3)], 2);
    assert_eq!(a.picture.data, b.picture.data);
    assert_eq!(a.picture.data[0][1], 255);
    assert_eq!(a.picture.data[2][3], 255);
}
