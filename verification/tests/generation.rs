use activity_classifier::features::{axis_extremes, Sample};
use activity_classifier::generator::{GeneratorWorker, SampleGenerator};
use activity_classifier::wire::parse_batch_message;

#[test]
fn generation_is_deterministic_per_seed() {
    let mut a = SampleGenerator::new(12345);
    let mut b = SampleGenerator::new(12345);
    let batch_a = a.generate_batch(50, -10_000, 10_000);
    let batch_b = b.generate_batch(50, -10_000, 10_000);
    assert_eq!(batch_a, batch_b);

    let mut c = SampleGenerator::new(54321);
    let batch_c = c.generate_batch(50, -10_000, 10_000);
    assert_ne!(batch_a, batch_c);
}

#[test]
fn generated_values_stay_in_the_requested_range() {
    let mut g = SampleGenerator::new(7);
    let batch = g.generate_batch(200, -5, 5);
    assert_eq!(batch.len(), 200);
    for s in &batch {
        assert!(-5 <= s.x && s.x <= 5);
        assert!(-5 <= s.y && s.y <= 5);
        assert!(-5 <= s.z && s.z <= 5);
    }
}

#[test]
fn generator_worker_numbers_its_batches() {
    let mut w = GeneratorWorker::new(99);
    for expected_id in 0u64..3 {
        let msg = w.next_batch_message(4, 0, 100);
        let parsed = parse_batch_message(&msg).unwrap();
        assert_eq!(parsed.batch_id, expected_id);
        assert_eq!(parsed.samples.len(), 4);
    }
    assert_eq!(w.counter, 3);
}

#[test]
fn axis_extremes_scan_every_axis() {
    let w = vec![
        Sample { x: 3, y: -9, z: 0 },
        Sample { x: -2, y: 14, z: 5 },
        Sample { x: 7, y: 1, z: -6 },
    ];
    let e = axis_extremes(&w);
    assert_eq!(e.min_x, -2);
    assert_eq!(e.max_x, 7);
    assert_eq!(e.min_y, -9);
    assert_eq!(e.max_y, 14);
    assert_eq!(e.min_z, -6);
    assert_eq!(e.max_z, 5);
}
