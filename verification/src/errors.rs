//! Error taxonomy of the pipeline.
//!
//! Per-message failures (`ParseError`, `ShapeError`) are recovered locally:
//! the offending message is dropped and the worker continues.  Per-lifecycle
//! failures (`DecodeError` at worker start, `TrainingError` during a training
//! run) are fatal to that lifecycle phase.

use vstd::prelude::*;

verus! {

/// A malformed inbound message envelope.  The message is dropped; the
/// worker keeps running.
#[derive(Clone, Copy, Debug, PartialEq, Eq, Structural)]
pub enum ParseError {
    /// The bytes are not a canonical encoding of the expected message.
    Malformed,
}

/// A stored model artifact that cannot be turned back into model bytes.
/// Fatal to worker initialization: the worker stays not-ready.
#[derive(Clone, Copy, Debug, PartialEq, Eq, Structural)]
pub enum DecodeError {
    /// The persistence store holds no record under the model key.
    NoRecord,
    /// The stored record is not a canonical model-metadata document.
    BadRecord,
    /// The embedded text is not valid base64.
    BadBase64,
    /// The decoded bytes were rejected by the model deserializer.
    BadModelBytes,
}

/// A failure of one classification attempt.  The message is dropped; the
/// worker keeps running.
#[derive(Clone, Copy, Debug, PartialEq, Eq, Structural)]
pub enum ClassifyError {
    /// The worker never reached its ready state, so no classifier is loaded.
    NotInitialized,
    /// The inbound feature message could not be parsed.
    Parse(ParseError),
    /// The prediction call rejected the feature vector's shape.
    Shape,
    /// The predicted class is outside the known label range.
    ClassOutOfRange,
}

/// A window that carries no data.  Zero-length windows are rejected
/// before they reach the feature extractor.
#[derive(Clone, Copy, Debug, PartialEq, Eq, Structural)]
pub enum FeatureError {
    EmptyWindow,
}

/// A failure of one feature-extraction message.  The message is dropped;
/// the worker keeps running.
#[derive(Clone, Copy, Debug, PartialEq, Eq, Structural)]
pub enum ExtractError {
    /// The inbound sensor-batch message could not be parsed.
    Parse(ParseError),
    /// The batch carries no readings, so there is nothing to summarise.
    EmptyBatch,
}

/// A failure of a training run.  Fatal: no partial model is persisted.
#[derive(Clone, Copy, Debug, PartialEq, Eq, Structural)]
pub enum TrainingError {
    /// No labeled window survived label mapping, so there is nothing to fit.
    EmptyTrainingSet,
    /// The library fit call failed.
    FitFailed,
}

} // verus!
