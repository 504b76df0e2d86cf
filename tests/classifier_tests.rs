use knn_digits::dataset_parser::parse_pic_dataset;
use knn_digits::error::DatasetError;
use knn_digits::knn_classifier::{ConfusionEntry, KnnClassifier, get_error_matrix};
use knn_digits::knn_classifier_metrics::{Metric, chebyshev, distance, euclidean_squared, l1};
use knn_digits::picture::{ClassifiedPicture, Picture, PictureClass};

fn pic(rows: &[&[u8]]) -> Picture {
    Picture { data: rows.iter().map(|r| r.to_vec()).collect() }
}

fn rec(rows: &[&[u8]], label: i32) -> ClassifiedPicture {
    ClassifiedPicture { picture: pic(rows), class: PictureClass { numerical_value: label } }
}

#[test]
fn metric_values() {
    let a = pic(&[&[0, 10], &[200, 5]]);
    let b = pic(&[&[3, 6], &[100, 5]]);
    assert_eq!(euclidean_squared(&a, &b), 9 + 16 + 10000);
    assert_eq!(l1(&a, &b), 3 + 4 + 100);
    assert_eq!(chebyshev(&a, &b), 100);
    assert_eq!(distance(Metric::Euclidean, &a, &b), 10025);
}

#[test]
fn metric_extremes_do_not_overflow() {
    let a = pic(&[&[0, 0], &[0, 0]]);
    let b = pic(&[&[255, 255], &[255, 255]]);
    assert_eq!(euclidean_squared(&a, &b), 4 * 65025);
    assert_eq!(chebyshev(&a, &b), 255);
}

#[test]
fn metrics_are_zero_on_equal_pictures_and_symmetric() {
    let a = pic(&[&[9, 0, 77], &[1, 2, 3], &[255, 0, 128]]);
    let b = pic(&[&[0, 9, 70], &[3, 2, 1], &[0, 255, 1]]);
    for m in [Metric::EuclideanSquared, Metric::Euclidean, Metric::L1, Metric::Chebyshev] {
        assert_eq!(distance(m, &a, &a), 0);
        assert_eq!(distance(m, &a, &b), distance(m, &b, &a));
    }
}

#[test]
fn create_checks_k() {
    let train = vec![rec(&[&[0]], 1), rec(&[&[9]], 2)];
    assert_eq!(KnnClassifier::create(train.clone(), Metric::L1, 0).err(), Some(DatasetError::InvalidK));
    assert_eq!(KnnClassifier::create(train.clone(), Metric::L1, 3).err(), Some(DatasetError::InvalidK));
    assert!(KnnClassifier::create(train, Metric::L1, 2).is_ok());
    assert_eq!(KnnClassifier::create(vec![], Metric::L1, 1).err(), Some(DatasetError::InvalidK));
}

#[test]
fn create_checks_sides() {
    let train = vec![rec(&[&[0]], 1), rec(&[&[9, 9], &[9, 9]], 2)];
    assert_eq!(KnnClassifier::create(train, Metric::L1, 1).err(), Some(DatasetError::ResolutionMismatch));
    let ragged = vec![rec(&[&[0, 1], &[2]], 1)];
    assert_eq!(KnnClassifier::create(ragged, Metric::L1, 1).err(), Some(DatasetError::ResolutionMismatch));
}

#[test]
fn each_reference_classifies_as_itself_with_one_neighbour() {
    let train = vec![
        rec(&[&[0, 0], &[0, 0]], 4),
        rec(&[&[255, 0], &[0, 0]], 7),
        rec(&[&[0, 255], &[255, 0]], 1),
        rec(&[&[255, 255], &[255, 255]], 4),
    ];
    for m in [Metric::EuclideanSquared, Metric::Euclidean, Metric::L1, Metric::Chebyshev] {
        let c = KnnClassifier::create(train.clone(), m, 1).unwrap();
        for r in &train {
            assert_eq!(c.classify(&r.picture).numerical_value, r.class.numerical_value);
        }
    }
}

#[test]
fn majority_wins() {
    let train = vec![
        rec(&[&[10]], 1),
        rec(&[&[11]], 2),
        rec(&[&[12]], 2),
        rec(&[&[200]], 1),
    ];
    let c = KnnClassifier::create(train, Metric::L1, 3).unwrap();
    assert_eq!(c.classify(&pic(&[&[10]])).numerical_value, 2);
}

#[test]
fn label_tie_goes_to_smallest_label() {
    let train = vec![rec(&[&[10]], 5), rec(&[&[12]], 3)];
    let c = KnnClassifier::create(train, Metric::L1, 2).unwrap();
    assert_eq!(c.classify(&pic(&[&[10]])).numerical_value, 3);
}

#[test]
fn distance_tie_goes_to_earlier_reference() {
    let train = vec![rec(&[&[8]], 6), rec(&[&[12]], 2), rec(&[&[8]], 9)];
    let c = KnnClassifier::create(train, Metric::L1, 1).unwrap();
    assert_eq!(c.classify(&pic(&[&[10]])).numerical_value, 6);
}

fn find(m: &[ConfusionEntry], t: i32, p: i32) -> ConfusionEntry {
    *m.iter().find(|e| e.true_label.numerical_value == t && e.predicted_label.numerical_value == p).unwrap()
}

#[test]
fn confusion_rows_add_up_to_their_totals() {
    let train = vec![rec(&[&[0]], 0), rec(&[&[100]], 1), rec(&[&[200]], 2)];
    let queries = vec![
        rec(&[&[10]], 0),
        rec(&[&[90]], 0),
        rec(&[&[180]], 2),
        rec(&[&[120]], 2),
        rec(&[&[60]], 1),
    ];
    let c = KnnClassifier::create(train, Metric::L1, 1).unwrap();
    let m = get_error_matrix(&c, &queries, 3).unwrap();
    assert_eq!(m.len(), 9);
    assert_eq!(find(&m, 0, 0).hits, 1);
    assert_eq!(find(&m, 0, 1).hits, 1);
    assert_eq!(find(&m, 2, 1).hits, 1);
    assert_eq!(find(&m, 2, 2).hits, 1);
    assert_eq!(find(&m, 1, 1).hits, 1);
    for t in 0..3 {
        let row: Vec<&ConfusionEntry> = m.iter().filter(|e| e.true_label.numerical_value == t).collect();
        let sum: usize = row.iter().map(|e| e.hits).sum();
        assert_eq!(sum, row[0].total);
        let rate: f64 = row.iter().map(|e| e.hits as f64 / e.total as f64).sum();
        assert!((rate - 1.0).abs() < 1e-9);
    }
}

#[test]
fn label_without_queries_has_zero_total() {
    let train = vec![rec(&[&[0]], 0), rec(&[&[100]], 1)];
    let queries = vec![rec(&[&[10]], 0)];
    let c = KnnClassifier::create(train, Metric::L1, 1).unwrap();
    let m = get_error_matrix(&c, &queries, 3).unwrap();
    assert_eq!(find(&m, 1, 1).total, 0);
    assert_eq!(find(&m, 2, 0).total, 0);
    assert_eq!(find(&m, 0, 0), ConfusionEntry {
        true_label: PictureClass { numerical_value: 0 },
        predicted_label: PictureClass { numerical_value: 0 },
        hits: 1,
        total: 1,
    });
}

#[test]
fn out_of_range_labels_are_refused() {
    let train = vec![rec(&[&[0]], 0), rec(&[&[100]], 5)];
    let c = KnnClassifier::create(train, Metric::L1, 1).unwrap();
    let r = get_error_matrix(&c, &vec![rec(&[&[0]], 3)], 2);
    assert_eq!(r.unwrap_err(), DatasetError::OutOfRangeLabel);
    let r = get_error_matrix(&c, &vec![rec(&[&[0]], -1)], 2);
    assert_eq!(r.unwrap_err(), DatasetError::OutOfRangeLabel);
    let r = get_error_matrix(&c, &vec![rec(&[&[100]], 1)], 2);
    assert_eq!(r.unwrap_err(), DatasetError::OutOfRangeLabel);
}

#[test]
fn queries_of_another_side_are_refused() {
    let train = vec![rec(&[&[0]], 0)];
    let c = KnnClassifier::create(train, Metric::L1, 1).unwrap();
    let r = get_error_matrix(&c, &vec![rec(&[&[0, 0], &[0, 0]], 0)], 2);
    assert_eq!(r.unwrap_err(), DatasetError::ResolutionMismatch);
}

#[test]
fn four_record_corpus_against_itself_is_all_correct() {
    let mut lb = vec![0, 0, 8, 1, 0, 0, 0, 4];
    lb.extend_from_slice(&[0, 1, 0, 1]);
    let mut pb = vec![0, 0, 8, 3, 0, 0, 0, 4, 0, 0, 0, 4, 0, 0, 0, 4];
    let images: [[u8; 16]; 4] = [
        [0; 16],
        [255; 16],
        [0, 0, 0, 0, 0, 10, 10, 0, 0, 10, 10, 0, 0, 0, 0, 0],
        [255, 255, 255, 255, 255, 200, 200, 255, 255, 200, 200, 255, 255, 255, 255, 255],
    ];
    for im in &images {
        pb.extend_from_slice(im);
    }
    let data = parse_pic_dataset(&lb, &pb, 4).unwrap();
    let c = KnnClassifier::create(data.clone(), Metric::EuclideanSquared, 1).unwrap();
    let m = get_error_matrix(&c, &data, 2).unwrap();
    assert_eq!(m.len(), 4);
    for e in &m {
        let expected = if e.true_label == e.predicted_label { 2 } else { 0 };
        assert_eq!(e.hits, expected);
        assert_eq!(e.total, 2);
    }
}
