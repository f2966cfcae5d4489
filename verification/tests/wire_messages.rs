use activity_classifier::errors::ParseError;
use activity_classifier::features::{extract_features, Sample};
use activity_classifier::label::Label;
use activity_classifier::wire::{
    build_batch_message, build_begin_marker, build_end_marker, build_feature_message,
    build_metadata, build_result_message, parse_batch_message, parse_feature_message,
    parse_metadata, parse_result_message,
};
use activity_classifier::worker::handle_result_message;

#[test]
fn batch_message_has_the_canonical_shape() {
    let samples = vec![Sample { x: 1, y: 2, z: 3 }, Sample { x: -4, y: 5, z: -6 }];
    let msg = build_batch_message(42, &samples);
    assert_eq!(
        String::from_utf8(msg).unwrap(),
        "{\"batch_id\":42,\"batch\":[{\"x\":1,\"y\":2,\"z\":3},{\"x\":-4,\"y\":5,\"z\":-6}]}"
    );
}

#[test]
fn batch_message_round_trips() {
    let samples = vec![
        Sample { x: 0, y: -1_000_000_000, z: 1_000_000_000 },
        Sample { x: 7, y: 7, z: 7 },
    ];
    let msg = build_batch_message(9_000_000_000_000_000_000, &samples);
    let parsed = parse_batch_message(&msg).unwrap();
    assert_eq!(parsed.batch_id, 9_000_000_000_000_000_000);
    assert_eq!(parsed.samples, samples);
}

#[test]
fn batch_identifier_survives_the_extreme_values() {
    for id in [0u64, 1, u64::MAX] {
        let samples = vec![Sample { x: 1, y: 0, z: 0 }];
        let msg = build_batch_message(id, &samples);
        assert_eq!(parse_batch_message(&msg).unwrap().batch_id, id);
        let result = build_result_message(id, Label::Walking);
        assert_eq!(parse_result_message(&result).unwrap().batch_id, id);
    }
}

#[test]
fn empty_batch_round_trips() {
    let samples: Vec<Sample> = Vec::new();
    let msg = build_batch_message(7, &samples);
    assert_eq!(String::from_utf8(msg.clone()).unwrap(), "{\"batch_id\":7,\"batch\":[]}");
    let parsed = parse_batch_message(&msg).unwrap();
    assert_eq!(parsed.samples.len(), 0);
}

#[test]
fn malformed_batch_is_rejected() {
    for bad in [
        "",
        "{\"batch_id\":7,\"batch\":[]",
        "{\"batch_id\":07,\"batch\":[]}",
        "{\"batch_id\":7,\"batch\":[{\"x\":1,\"y\":2}]}",
        "{\"batch_id\":-7,\"batch\":[]}",
        "{\"batch_id\":7,\"batch\":[]} ",
    ] {
        assert!(matches!(parse_batch_message(bad.as_bytes()), Err(ParseError::Malformed)));
    }
}

#[test]
fn feature_message_has_the_canonical_shape_and_round_trips() {
    let w = vec![Sample { x: 1, y: 0, z: 0 }];
    let fv = extract_features(&w).unwrap();
    let msg = build_feature_message(5, &fv);
    let text = String::from_utf8(msg.clone()).unwrap();
    let mut expected = String::new();
    expected.push_str("{\"batch_id\":5,\"features\":{");
    expected.push_str("\"mean_mag\":1,\"std_dev_mag\":0,\"min_mag\":1,\"max_mag\":1,");
    expected.push_str("\"coeff_var_mag\":0,\"percentile_25_mag\":1,\"percentile_75_mag\":1,");
    expected.push_str("\"mean_x\":1,\"std_dev_x\":0,\"min_x\":1,\"max_x\":1,");
    expected.push_str("\"coeff_var_x\":0,\"percentile_25_x\":1,\"percentile_75_x\":1,");
    expected.push_str("\"mean_y\":0,\"std_dev_y\":0,\"min_y\":0,\"max_y\":0,");
    expected.push_str("\"coeff_var_y\":0,\"percentile_25_y\":0,\"percentile_75_y\":0,");
    expected.push_str("\"mean_z\":0,\"std_dev_z\":0,\"min_z\":0,\"max_z\":0,");
    expected.push_str("\"coeff_var_z\":0,\"percentile_25_z\":0,\"percentile_75_z\":0}}");
    assert_eq!(text, expected);
    let parsed = parse_feature_message(&msg).unwrap();
    assert_eq!(parsed.batch_id, 5);
    assert_eq!(parsed.features, fv);
}

#[test]
fn feature_message_missing_one_field_fails_with_parse_error() {
    let w = vec![Sample { x: 1, y: 0, z: 0 }];
    let fv = extract_features(&w).unwrap();
    let msg = String::from_utf8(build_feature_message(5, &fv)).unwrap();
    let mutilated = msg.replace(",\"std_dev_mag\":0", "");
    assert_ne!(msg, mutilated);
    assert!(matches!(
        parse_feature_message(mutilated.as_bytes()),
        Err(ParseError::Malformed)
    ));
}

#[test]
fn result_message_round_trips_for_every_label() {
    for label in
        [Label::Jogging, Label::Walking, Label::Standing, Label::Stairs, Label::Sitting]
    {
        let msg = build_result_message(3, label);
        let parsed = parse_result_message(&msg).unwrap();
        assert_eq!(parsed.batch_id, 3);
        assert_eq!(parsed.label, label);
    }
    assert_eq!(
        String::from_utf8(build_result_message(3, Label::Jogging)).unwrap(),
        "{\"batch_id\":3,\"classification\":\"Jogging\"}"
    );
}

#[test]
fn unknown_classification_name_is_rejected() {
    let msg = "{\"batch_id\":3,\"classification\":\"Flying\"}";
    assert!(matches!(parse_result_message(msg.as_bytes()), Err(ParseError::Malformed)));
}

#[test]
fn metadata_document_round_trips() {
    let text: Vec<u8> = b"QUJDRA==".to_vec();
    let doc = build_metadata(&text);
    assert_eq!(
        String::from_utf8(doc.clone()).unwrap(),
        "{\"classifier_base64\":\"QUJDRA==\"}"
    );
    assert_eq!(parse_metadata(&doc).unwrap(), text);
    assert!(parse_metadata(b"{\"classifier_base64\":\"unterminated").is_err());
}

#[test]
fn telemetry_markers_carry_the_counter() {
    assert_eq!(String::from_utf8(build_begin_marker(0)).unwrap(), "function:begin:0");
    assert_eq!(String::from_utf8(build_end_marker(12)).unwrap(), "function:end:12");
    assert_eq!(
        String::from_utf8(build_begin_marker(u64::MAX)).unwrap(),
        "function:begin:18446744073709551615"
    );
}

#[test]
fn result_handler_renders_the_detected_line_and_echoes_the_batch() {
    let msg = build_result_message(123, Label::Standing);
    let handled = handle_result_message(&msg).unwrap();
    assert_eq!(
        String::from_utf8(handled.line).unwrap(),
        "'STANDING' activity detected"
    );
    assert_eq!(String::from_utf8(handled.ack).unwrap(), "123");
    assert_eq!(handled.message.batch_id, 123);
    assert!(handle_result_message(b"nonsense").is_err());
}
