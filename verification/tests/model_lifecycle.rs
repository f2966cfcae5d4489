use activity_classifier::codec::{decode_stored_metadata, model_key, package_model};
use activity_classifier::features::Sample;
use activity_classifier::store::MemoryStore;
use activity_classifier::trainer::prepare_training_set;
use activity_classifier::windowing::LabeledRow;
use activity_classifier::worker::ClassifyWorker;
use smartcore::ensemble::random_forest_classifier::{
    RandomForestClassifier, RandomForestClassifierParameters,
};
use smartcore::linalg::basic::matrix::DenseMatrix;

type Forest = RandomForestClassifier<f64, i64, DenseMatrix<f64>, Vec<i64>>;

fn row(activity: &str, x: i64, y: i64, z: i64) -> LabeledRow {
    LabeledRow { activity: activity.as_bytes().to_vec(), sample: Sample { x, y, z } }
}

fn to_f64_matrix(rows: &[Vec<i64>]) -> DenseMatrix<f64> {
    let data: Vec<Vec<f64>> = rows
        .iter()
        .map(|r| r.iter().map(|&v| v as f64).collect())
        .collect();
    DenseMatrix::from_2d_vec(&data)
}

fn training_fixture() -> (Vec<Vec<i64>>, Vec<i64>) {
    // three groups of three windows each, at widely separated scales
    let mut rows = Vec::new();
    for i in 0..6 {
        rows.push(row("jogging", 900_000 + 10_000 * i, 800_000 - 7_000 * i, 700_000 + 5_000 * i));
    }
    for i in 0..6 {
        rows.push(row("walking", 90_000 + 1_000 * i, 80_000 - 700 * i, 70_000 + 500 * i));
    }
    for i in 0..6 {
        rows.push(row("standing", 9_000 + 100 * i, 8_000 - 70 * i, 7_000 + 50 * i));
    }
    let ts = prepare_training_set(&rows, 2).unwrap();
    (ts.rows, ts.labels)
}

fn fit_fixture(rows: &[Vec<i64>], labels: &[i64]) -> Forest {
    let x = to_f64_matrix(rows);
    let y: Vec<i64> = labels.to_vec();
    let params = RandomForestClassifierParameters::default().with_seed(7);
    RandomForestClassifier::fit(&x, &y, params).unwrap()
}

#[test]
fn trained_model_returns_the_original_labels_on_the_training_vectors() {
    let (rows, labels) = training_fixture();
    assert_eq!(labels, vec![0, 0, 0, 1, 1, 1, 2, 2, 2]);
    let forest = fit_fixture(&rows, &labels);
    let predictions = forest.predict(&to_f64_matrix(&rows)).unwrap();
    assert_eq!(predictions, labels);
}

#[test]
fn model_round_trip_preserves_predictive_behavior() {
    let (rows, labels) = training_fixture();
    let forest = fit_fixture(&rows, &labels);

    // the fixed probe set: the training vectors and two fresh ones
    let mut probes = rows.clone();
    probes.push(rows[0].iter().map(|v| v + 3).collect());
    probes.push(rows[rows.len() - 1].iter().map(|v| v - 3).collect());
    let probe_matrix = to_f64_matrix(&probes);
    let before = forest.predict(&probe_matrix).unwrap();

    // encode, persist, fetch, decode
    let model_bytes = bincode::serialize(&forest).unwrap();
    let record = package_model(&model_bytes);
    assert_eq!(record.id, model_key().as_bytes().to_vec());

    let mut store = MemoryStore::new();
    store.store(&record.id, &record.metadata);
    let fetched = store.fetch(model_key().as_bytes()).unwrap();

    let decoded_bytes = decode_stored_metadata(&fetched).unwrap();
    assert_eq!(decoded_bytes, model_bytes);

    let restored: Forest = bincode::deserialize(&decoded_bytes).unwrap();
    let after = restored.predict(&probe_matrix).unwrap();
    assert_eq!(before, after);
}

#[test]
fn worker_initializes_from_the_persisted_record() {
    let (rows, labels) = training_fixture();
    let forest = fit_fixture(&rows, &labels);
    let model_bytes = bincode::serialize(&forest).unwrap();
    let record = package_model(&model_bytes);

    let mut store = MemoryStore::new();
    store.store(&record.id, &record.metadata);

    let mut worker = ClassifyWorker::new();
    let fetched = store.fetch(model_key().as_bytes());
    let bytes = worker.start_init(fetched.as_ref()).unwrap();
    let loaded: Result<Forest, _> = bincode::deserialize(&bytes);
    worker.finish_init(loaded.is_ok());
    assert!(worker.is_ready());
}

#[test]
fn base64_text_of_the_record_is_json_safe() {
    let record = package_model(&vec![0u8, 255, 34, 92, 10]);
    let text = String::from_utf8(record.metadata).unwrap();
    // the embedded base64 never needs escaping inside the JSON string
    assert_eq!(text.matches('"').count(), 4);
    assert!(!text.contains('\\'));
}
