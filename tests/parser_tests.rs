use knn_digits::dataset_parser::{parse_labels, parse_pic_dataset, parse_pictures, read_next_u32};
use knn_digits::error::DatasetError;

fn be(v: u32) -> Vec<u8> {
    v.to_be_bytes().to_vec()
}

fn label_stream(labels: &[u8]) -> Vec<u8> {
    let mut b = be(0x801);
    b.extend(be(labels.len() as u32));
    b.extend_from_slice(labels);
    b
}

fn image_stream(count: u32, rows: u32, cols: u32, body: &[u8]) -> Vec<u8> {
    let mut b = be(0x803);
    b.extend(be(count));
    b.extend(be(rows));
    b.extend(be(cols));
    b.extend_from_slice(body);
    b
}

#[test]
fn reads_big_endian_integers() {
    let b = vec![0x12, 0x34, 0x56, 0x78, 0x9a];
    assert_eq!(read_next_u32(&b, 0), 0x12345678);
    assert_eq!(read_next_u32(&b, 1), 0x3456789a);
}

#[test]
fn parses_labels_in_order() {
    let v = parse_labels(&label_stream(&[7, 0, 255])).unwrap();
    let got: Vec<i32> = v.iter().map(|c| c.numerical_value).collect();
    assert_eq!(got, vec![7, 0, 255]);
}

#[test]
fn label_stream_with_wrong_magic_is_refused() {
    let mut b = label_stream(&[1]);
    b[3] = 0x03;
    assert_eq!(parse_labels(&b).unwrap_err(), DatasetError::BadMagic);
}

#[test]
fn truncated_label_streams_are_short_reads() {
    assert_eq!(parse_labels(&vec![0, 0, 8]).unwrap_err(), DatasetError::ShortRead);
    assert_eq!(parse_labels(&vec![0, 0, 8, 1, 0, 0]).unwrap_err(), DatasetError::ShortRead);
    let mut b = label_stream(&[1, 2, 3]);
    b.pop();
    assert_eq!(parse_labels(&b).unwrap_err(), DatasetError::ShortRead);
}

#[test]
fn parses_and_keeps_native_size_pictures() {
    let body: Vec<u8> = (0..8).collect();
    let v = parse_pictures(&image_stream(2, 2, 2, &body), 2).unwrap();
    assert_eq!(v.len(), 2);
    assert_eq!(v[0].data, vec![vec![0, 1], vec![2, 3]]);
    assert_eq!(v[1].data, vec![vec![4, 5], vec![6, 7]]);
}

#[test]
fn parsed_pictures_are_resampled() {
    let body: Vec<u8> = (0..16).collect();
    let v = parse_pictures(&image_stream(1, 4, 4, &body), 2).unwrap();
    assert_eq!(v[0].data, vec![vec![0, 2], vec![8, 10]]);
}

#[test]
fn image_stream_errors() {
    let body: Vec<u8> = (0..8).collect();
    let mut bad = image_stream(2, 2, 2, &body);
    bad[2] = 0x09;
    assert_eq!(parse_pictures(&bad, 2).unwrap_err(), DatasetError::BadMagic);
    assert_eq!(parse_pictures(&image_stream(2, 2, 3, &body), 2).unwrap_err(), DatasetError::NonSquareImage);
    assert_eq!(parse_pictures(&image_stream(2, 0, 0, &[]), 2).unwrap_err(), DatasetError::EmptyImage);
    assert_eq!(parse_pictures(&image_stream(3, 2, 2, &body), 2).unwrap_err(), DatasetError::ShortRead);
    assert_eq!(parse_pictures(&be(0x803)[..3].to_vec(), 2).unwrap_err(), DatasetError::ShortRead);
    let header_only = image_stream(1, 2, 2, &[]);
    assert_eq!(parse_pictures(&header_only[..14].to_vec(), 2).unwrap_err(), DatasetError::ShortRead);
}

#[test]
fn empty_image_stream_is_accepted() {
    assert_eq!(parse_pictures(&image_stream(0, 0, 0, &[]), 3).unwrap().len(), 0);
}

#[test]
fn dataset_pairs_records_in_stream_order() {
    let body: Vec<u8> = (0..8).collect();
    let v = parse_pic_dataset(&label_stream(&[3, 9]), &image_stream(2, 2, 2, &body), 2).unwrap();
    assert_eq!(v.len(), 2);
    assert_eq!(v[0].class.numerical_value, 3);
    assert_eq!(v[0].picture.data, vec![vec![0, 1], vec![2, 3]]);
    assert_eq!(v[1].class.numerical_value, 9);
    assert_eq!(v[1].picture.data, vec![vec![4, 5], vec![6, 7]]);
}

#[test]
fn dataset_with_different_counts_is_refused() {
    let body: Vec<u8> = (0..8).collect();
    let r = parse_pic_dataset(&label_stream(&[3]), &image_stream(2, 2, 2, &body), 2);
    assert_eq!(r.unwrap_err(), DatasetError::CountMismatch);
}

#[test]
fn dataset_reports_the_label_stream_first() {
    let r = parse_pic_dataset(&vec![1, 2], &vec![3], 2);
    assert_eq!(r.unwrap_err(), DatasetError::ShortRead);
    let mut lb = label_stream(&[1]);
    lb[3] = 0;
    let r = parse_pic_dataset(&lb, &image_stream(1, 2, 3, &[]), 2);
    assert_eq!(r.unwrap_err(), DatasetError::BadMagic);
    let r = parse_pic_dataset(&label_stream(&[1]), &image_stream(1, 2, 3, &[]), 2);
    assert_eq!(r.unwrap_err(), DatasetError::NonSquareImage);
}
