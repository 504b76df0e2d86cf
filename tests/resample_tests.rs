use knn_digits::resample::scale_raw_picture;

fn grid(rows: &[&[u8]]) -> Vec<Vec<u8>> {
    rows.iter().map(|r| r.to_vec()).collect()
}

#[test]
fn same_side_is_copied_exactly() {
    let raw = grid(&[&[1, 2, 3], &[4, 5, 6], &[7, 8, 9]]);
    let p = scale_raw_picture(raw.clone(), 3);
    assert_eq!(p.data, raw);
}

#[test]
fn decimation_takes_every_second_sample() {
    let raw = grid(&[&[0, 1, 2, 3], &[4, 5, 6, 7], &[8, 9, 10, 11], &[12, 13, 14, 15]]);
    let p = scale_raw_picture(raw, 2);
    assert_eq!(p.data, grid(&[&[0, 2], &[8, 10]]));
}

#[test]
fn decimation_with_uneven_factor_uses_floor() {
    // side 5 to 2: factor 2, samples at 0 and 2
    let raw: Vec<Vec<u8>> = (0..5u8).map(|i| (0..5u8).map(|j| i * 10 + j).collect()).collect();
    let p = scale_raw_picture(raw, 2);
    assert_eq!(p.data, grid(&[&[0, 2], &[20, 22]]));
}

#[test]
fn decimating_twice_matches_decimating_once() {
    let raw: Vec<Vec<u8>> = (0..8u8).map(|i| (0..8u8).map(|j| i * 8 + j).collect()).collect();
    let once = scale_raw_picture(raw.clone(), 2);
    let half = scale_raw_picture(raw, 4);
    let twice = scale_raw_picture(half.data, 2);
    assert_eq!(once.data, twice.data);
}

#[test]
fn upsample_row_zero_to_ten_by_four() {
    let raw = grid(&[&[0, 10], &[0, 10]]);
    let p = scale_raw_picture(raw, 8);
    for row in &p.data {
        assert_eq!(row, &vec![0, 2, 4, 6, 10, 10, 10, 10]);
    }
    assert_eq!(p.data.len(), 8);
}

#[test]
fn upsample_descending_row_does_not_wrap() {
    let raw = grid(&[&[10, 0], &[10, 0]]);
    let p = scale_raw_picture(raw, 8);
    for row in &p.data {
        assert_eq!(row, &vec![10, 8, 6, 4, 0, 0, 0, 0]);
    }
}

#[test]
fn upsample_interpolates_between_rows() {
    let raw = grid(&[&[0, 0], &[100, 100]]);
    let p = scale_raw_picture(raw, 4);
    let column: Vec<u8> = p.data.iter().map(|r| r[0]).collect();
    assert_eq!(column, vec![0, 50, 100, 100]);
}

#[test]
fn upsample_clamps_past_the_last_sample() {
    // side 3 to 8: factor 2, indices 6 and 7 fall past the source and repeat its end
    let raw = grid(&[&[0, 20, 40], &[0, 20, 40], &[0, 20, 40]]);
    let p = scale_raw_picture(raw, 8);
    assert_eq!(p.data[0], vec![0, 10, 20, 30, 40, 40, 40, 40]);
}

#[test]
fn upsampled_samples_stay_within_their_bounds() {
    let raw = grid(&[&[3, 250, 7], &[90, 1, 255], &[0, 128, 64]]);
    let p = scale_raw_picture(raw.clone(), 9);
    for i in 0..9 {
        for j in 0..9 {
            let lo_r = (i / 3).min(2);
            let hi_r = (i / 3 + 1).min(2);
            let lo_c = (j / 3).min(2);
            let hi_c = (j / 3 + 1).min(2);
            let vals = [raw[lo_r][lo_c], raw[lo_r][hi_c], raw[hi_r][lo_c], raw[hi_r][hi_c]];
            let v = p.data[i][j];
            assert!(v >= *vals.iter().min().unwrap());
            assert!(v <= *vals.iter().max().unwrap());
        }
    }
}
