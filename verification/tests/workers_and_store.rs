use activity_classifier::codec::model_key;
use activity_classifier::errors::{ClassifyError, DecodeError, TrainingError};
use activity_classifier::features::Sample;
use activity_classifier::label::{label_of_class, Label};
use activity_classifier::store::MemoryStore;
use activity_classifier::trainer::prepare_training_set;
use activity_classifier::windowing::{chunk_windows, group_by_activity, LabeledRow};
use activity_classifier::wire::{build_batch_message, build_feature_message, parse_result_message};
use activity_classifier::worker::{ClassifyWorker, ExtractWorker};

fn row(activity: &str, x: i64, y: i64, z: i64) -> LabeledRow {
    LabeledRow { activity: activity.as_bytes().to_vec(), sample: Sample { x, y, z } }
}

#[test]
fn label_mapping_is_total_and_exhaustive() {
    assert_eq!(label_of_class(0), Some(Label::Jogging));
    assert_eq!(label_of_class(1), Some(Label::Walking));
    assert_eq!(label_of_class(2), Some(Label::Standing));
    assert_eq!(label_of_class(3), Some(Label::Stairs));
    assert_eq!(label_of_class(4), Some(Label::Sitting));
    for bad in [-1i64, 5, 6, 17, i64::MAX, i64::MIN] {
        assert_eq!(label_of_class(bad), None);
    }
    for l in [Label::Jogging, Label::Walking, Label::Standing, Label::Stairs, Label::Sitting] {
        assert_eq!(label_of_class(l.class() as i64), Some(l));
    }
}

#[test]
fn fetch_on_an_empty_store_returns_no_record_and_the_worker_stays_not_ready() {
    let store = MemoryStore::new();
    let fetched = store.fetch(model_key().as_bytes());
    assert!(fetched.is_none());

    let mut worker = ClassifyWorker::new();
    let init = worker.start_init(fetched.as_ref());
    assert!(matches!(init, Err(DecodeError::NoRecord)));
    assert!(!worker.is_ready());

    // every classification attempt fails fast instead of panicking
    let (marker, outcome) = worker.begin_message(b"{\"batch_id\":1,...}");
    assert!(marker.is_none());
    assert!(matches!(outcome, Err(ClassifyError::NotInitialized)));
    assert_eq!(worker.telemetry_id, 0);
}

#[test]
fn store_upserts_with_last_writer_wins() {
    let mut store = MemoryStore::new();
    store.store(b"k", b"first");
    store.store(b"other", b"x");
    store.store(b"k", b"second");
    assert_eq!(store.fetch(b"k").unwrap(), b"second".to_vec());
    assert_eq!(store.fetch(b"other").unwrap(), b"x".to_vec());
    assert!(store.fetch(b"absent").is_none());
}

#[test]
fn batch_identity_survives_extraction_and_classification() {
    for id in [0u64, 42, u64::MAX] {
        let samples = vec![
            Sample { x: 10, y: -3, z: 250 },
            Sample { x: 12, y: -5, z: 260 },
        ];
        let batch = build_batch_message(id, &samples);

        let mut extractor = ExtractWorker::new();
        let (_begin, outcome) = extractor.process_batch(&batch);
        let extracted = outcome.unwrap();
        assert_eq!(extracted.batch_id, id);

        let mut worker = ClassifyWorker::new();
        worker.finish_init(true);
        assert!(worker.is_ready());
        let (marker, pending) = worker.begin_message(&extracted.payload);
        assert!(marker.is_some());
        let pending = pending.unwrap();
        assert_eq!(pending.batch_id, id);
        assert_eq!(pending.row.len(), 28);

        let done = worker.finish_message(&pending, Some(2)).unwrap();
        assert_eq!(done.label, Label::Standing);
        let result = parse_result_message(&done.result_msg).unwrap();
        assert_eq!(result.batch_id, id);
    }
}

#[test]
fn telemetry_counter_increments_once_per_processed_message() {
    let mut worker = ClassifyWorker::new();
    worker.finish_init(true);
    let samples = vec![Sample { x: 1, y: 1, z: 1 }];
    let mut extractor = ExtractWorker::new();

    let batch0 = build_batch_message(0, &samples);
    let payload0 = extractor.process_batch(&batch0).1.unwrap().payload;
    assert_eq!(extractor.telemetry_id, 1);

    let (begin, pending) = worker.begin_message(&payload0);
    assert_eq!(String::from_utf8(begin.unwrap()).unwrap(), "function:begin:0");
    let done = worker.finish_message(&pending.unwrap(), Some(0)).unwrap();
    assert_eq!(String::from_utf8(done.end_marker).unwrap(), "function:end:0");
    assert_eq!(worker.telemetry_id, 1);

    // a malformed message is dropped without touching the counter
    let (begin2, bad) = worker.begin_message(b"not a message");
    assert_eq!(String::from_utf8(begin2.unwrap()).unwrap(), "function:begin:1");
    assert!(matches!(bad, Err(ClassifyError::Parse(_))));
    assert_eq!(worker.telemetry_id, 1);

    // a failing prediction is dropped without touching the counter
    let (_b, pending2) = worker.begin_message(&payload0);
    assert!(matches!(
        worker.finish_message(&pending2.unwrap(), None),
        Err(ClassifyError::Shape)
    ));
    assert_eq!(worker.telemetry_id, 1);
}

#[test]
fn out_of_range_class_is_an_explicit_error_not_sitting() {
    let mut worker = ClassifyWorker::new();
    worker.finish_init(true);
    let samples = vec![Sample { x: 2, y: 2, z: 2 }];
    let payload = ExtractWorker::new()
        .process_batch(&build_batch_message(1, &samples))
        .1
        .unwrap()
        .payload;
    let (_m, pending) = worker.begin_message(&payload);
    let pending = pending.unwrap();
    for c in [5i64, -1, 100] {
        assert!(matches!(
            worker.finish_message(&pending, Some(c)),
            Err(ClassifyError::ClassOutOfRange)
        ));
    }
    // the in-range classes all succeed
    for c in 0i64..=4 {
        assert!(worker.finish_message(&pending, Some(c)).is_ok());
    }
}

#[test]
fn undecodable_record_leaves_the_worker_not_ready() {
    let mut worker = ClassifyWorker::new();
    let garbage = b"not a stored record".to_vec();
    assert!(matches!(
        worker.start_init(Some(&garbage)),
        Err(DecodeError::BadRecord)
    ));
    assert!(!worker.is_ready());

    let mut worker2 = ClassifyWorker::new();
    let bad_b64 = b"{\"classifier_base64\":\"!!!\"}".to_vec();
    assert!(matches!(
        worker2.start_init(Some(&bad_b64)),
        Err(DecodeError::BadBase64)
    ));
    assert!(!worker2.is_ready());
}

#[test]
fn stopped_worker_processes_nothing_further() {
    let mut worker = ClassifyWorker::new();
    worker.finish_init(true);
    worker.stop();
    assert!(!worker.is_ready());
    let (marker, outcome) = worker.begin_message(b"anything");
    assert!(marker.is_none());
    assert!(matches!(outcome, Err(ClassifyError::NotInitialized)));
}

#[test]
fn empty_batch_is_dropped_by_the_extractor() {
    let samples: Vec<Sample> = Vec::new();
    let batch = build_batch_message(3, &samples);
    let mut extractor = ExtractWorker::new();
    let (_begin, outcome) = extractor.process_batch(&batch);
    assert!(outcome.is_err());
    assert_eq!(extractor.telemetry_id, 0);
}

#[test]
fn grouping_keeps_order_and_windows_never_cross_labels() {
    let mut rows = Vec::new();
    for i in 0..5 {
        rows.push(row("jogging", i, 0, 0));
    }
    for i in 0..3 {
        rows.push(row("walking", 100 + i, 0, 0));
    }
    for i in 5..7 {
        rows.push(row("jogging", i, 0, 0));
    }
    let groups = group_by_activity(&rows);
    assert_eq!(groups.len(), 2);
    assert_eq!(groups[0].activity, b"jogging".to_vec());
    assert_eq!(groups[1].activity, b"walking".to_vec());
    let jogging_x: Vec<i64> = groups[0].samples.iter().map(|s| s.x).collect();
    assert_eq!(jogging_x, vec![0, 1, 2, 3, 4, 5, 6]);

    let windows = chunk_windows(&groups[0].samples, 3);
    assert_eq!(windows.len(), 3);
    assert_eq!(windows[0].len(), 3);
    assert_eq!(windows[1].len(), 3);
    assert_eq!(windows[2].len(), 1);
    assert_eq!(windows[2][0].x, 6);
}

#[test]
fn training_set_assembly_windows_and_labels_each_group() {
    let mut rows = Vec::new();
    for i in 0..5 {
        rows.push(row("jogging", 900 + i, 0, 0));
    }
    for i in 0..3 {
        rows.push(row("walking", 100 + i, 0, 0));
    }
    let ts = prepare_training_set(&rows, 2).unwrap();
    // jogging: windows of 2,2,1; walking: 2,1
    assert_eq!(ts.rows.len(), 5);
    assert_eq!(ts.labels, vec![0, 0, 0, 1, 1]);
    for r in &ts.rows {
        assert_eq!(r.len(), 28);
    }
}

#[test]
fn unrecognized_activities_are_discarded_before_training() {
    let mut rows = Vec::new();
    rows.push(row("flying", 1, 2, 3));
    rows.push(row("sitting", 4, 5, 6));
    let ts = prepare_training_set(&rows, 100).unwrap();
    assert_eq!(ts.rows.len(), 1);
    assert_eq!(ts.labels, vec![4]);

    let only_unknown = vec![row("flying", 1, 2, 3)];
    assert!(matches!(
        prepare_training_set(&only_unknown, 100),
        Err(TrainingError::EmptyTrainingSet)
    ));
    let empty: Vec<LabeledRow> = Vec::new();
    assert!(matches!(
        prepare_training_set(&empty, 100),
        Err(TrainingError::EmptyTrainingSet)
    ));
}
