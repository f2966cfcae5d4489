//! The streaming workers' state machines.
//!
//! Each worker owns one telemetry counter and processes one message at a
//! time: a begin marker, the message's work, an end marker, and exactly
//! one counter increment per successfully processed message.  The host
//! runtime performs the outside work — fetching the stored record,
//! deserializing the model, running the prediction, delivering the
//! emitted byte strings — and these state machines decide: every decision
//! here is verified, and a malformed or failing message degrades that one
//! message, never the worker.

use crate::codec::{b64_decode_of, decode_stored_metadata};
use crate::errors::{ClassifyError, DecodeError, ExtractError};
use crate::features::{extract_features, samples_wf, spec_features, spec_row, FeatureVector, Sample};
use crate::label::{label_of_class, spec_label_of_class, Label};
use crate::stats::SERIES_CAP;
use crate::wire::{
    lemma_batch_json_empty_agrees, features_sendable,
    build_begin_marker, build_end_marker, build_result_message, digits_of, parse_batch_message,
    parse_feature_message, parse_result_message, push_digits, push_lit, spec_batch_json,
    spec_begin_marker, spec_end_marker, spec_feature_json, spec_metadata_json, spec_result_json,
    build_feature_message, ResultMessage,
};
use vstd::prelude::*;
use vstd::string::StringSliceAdditionalSpecFns;

verus! {

/// Where a worker stands in its lifecycle.
#[derive(Clone, Copy, Debug, PartialEq, Eq, Structural)]
pub enum WorkerPhase {
    /// Created, model not loaded yet.
    Uninitialized,
    /// Initialization failed; every classification attempt fails fast
    /// with the recorded reason instead of crashing.
    NotReady(DecodeError),
    /// Model loaded; messages are processed.
    Ready,
    /// Shut down; no further message is processed.
    Stopped,
}

/// The streaming classification worker: one telemetry counter, one
/// lifecycle phase.  The host holds the deserialized model and calls the
/// prediction; the worker decides everything else.
pub struct ClassifyWorker {
    pub phase: WorkerPhase,
    pub telemetry_id: u64,
}

/// One parsed feature message awaiting the host's prediction.
pub struct PendingClassification {
    /// The correlation key of the inbound message, passed through
    /// unchanged to the emitted result.
    pub batch_id: u64,
    /// The parsed 28-statistic vector.
    pub features: FeatureVector,
    /// The vector flattened in the fixed wire order, ready to predict on.
    pub row: Vec<i64>,
}

/// One finished classification: the emitted byte strings and the label.
pub struct CompletedClassification {
    pub label: Label,
    pub result_msg: Vec<u8>,
    pub end_marker: Vec<u8>,
}

impl ClassifyWorker {
    /// A fresh, uninitialized worker.
    pub fn new() -> (w: Self)
        ensures
            w.phase == WorkerPhase::Uninitialized,
            w.telemetry_id == 0,
    {
        ClassifyWorker { phase: WorkerPhase::Uninitialized, telemetry_id: 0 }
    }

    /// True exactly when the worker reached its ready state: the distinct
    /// status callers consult instead of crashing on first use.
    pub fn is_ready(&self) -> (r: bool)
        ensures
            r == (self.phase == WorkerPhase::Ready),
    {
        match self.phase {
            WorkerPhase::Ready => true,
            _ => false,
        }
    }

    /// First half of initialization: turns the persistence gateway's
    /// fetch reply into serialized model bytes for the host to
    /// deserialize.  An absent record or an undecodable one leaves the
    /// worker in its explicit not-ready state.
    pub fn start_init(&mut self, fetched: Option<&Vec<u8>>) -> (r: Result<Vec<u8>, DecodeError>)
        requires
            old(self).phase == WorkerPhase::Uninitialized,
        ensures
            final(self).telemetry_id == old(self).telemetry_id,
            r matches Ok(d) ==> {
                &&& final(self).phase == WorkerPhase::Uninitialized
                &&& fetched matches Some(m) && (exists|t: Seq<u8>|
                    m@ == spec_metadata_json(t) && b64_decode_of(t) == Some(d@))
            },
            r matches Err(e) ==> {
                &&& final(self).phase == WorkerPhase::NotReady(e)
                &&& (e == DecodeError::NoRecord <==> fetched is None)
            },
            fetched matches Some(m) && (exists|t: Seq<u8>|
                m@ == #[trigger] spec_metadata_json(t) && (forall|i: int|
                    0 <= i < t.len() ==> #[trigger] t[i] != 34) && b64_decode_of(t) is Some)
                ==> r is Ok,
    {
        match fetched {
            None => {
                self.phase = WorkerPhase::NotReady(DecodeError::NoRecord);
                Err(DecodeError::NoRecord)
            },
            Some(m) => match decode_stored_metadata(m.as_slice()) {
                Ok(d) => Ok(d),
                Err(e) => {
                    self.phase = WorkerPhase::NotReady(e);
                    Err(e)
                },
            },
        }
    }

    /// Second half of initialization: the host reports whether the model
    /// bytes deserialized into a usable classifier.
    pub fn finish_init(&mut self, model_ok: bool)
        requires
            old(self).phase == WorkerPhase::Uninitialized,
        ensures
            final(self).telemetry_id == old(self).telemetry_id,
            model_ok ==> final(self).phase == WorkerPhase::Ready,
            !model_ok ==> final(self).phase == WorkerPhase::NotReady(DecodeError::BadModelBytes),
    {
        if model_ok {
            self.phase = WorkerPhase::Ready;
        } else {
            self.phase = WorkerPhase::NotReady(DecodeError::BadModelBytes);
        }
    }

    /// Opens one message's processing: emits the begin marker and parses
    /// the feature message.  A worker that never reached its ready state
    /// fails fast without a marker; a malformed message is dropped after
    /// the marker, leaving the telemetry counter untouched either way.
    pub fn begin_message(&mut self, msg: &[u8]) -> (r: (
        Option<Vec<u8>>,
        Result<PendingClassification, ClassifyError>,
    ))
        ensures
            final(self).phase == old(self).phase,
            final(self).telemetry_id == old(self).telemetry_id,
            r.0 is Some <==> old(self).phase == WorkerPhase::Ready,
            r.0 matches Some(mk) ==> mk@ == spec_begin_marker(old(self).telemetry_id),
            old(self).phase != WorkerPhase::Ready ==> r.1 == Err::<
                PendingClassification,
                ClassifyError,
            >(ClassifyError::NotInitialized),
            r.1 matches Ok(p) ==> {
                &&& old(self).phase == WorkerPhase::Ready
                &&& msg@ == spec_feature_json(p.batch_id, p.features)
                &&& p.row@ == spec_row(p.features)
            },
            old(self).phase == WorkerPhase::Ready && r.1 is Err ==> r.1 matches Err(
                ClassifyError::Parse(_),
            ),
            old(self).phase == WorkerPhase::Ready && (exists|id: u64, fv: FeatureVector|
                msg@ == #[trigger] spec_feature_json(id, fv) && features_sendable(fv)) ==> r.1
                is Ok,
    {
        match self.phase {
            WorkerPhase::Ready => {},
            _ => {
                return (None, Err(ClassifyError::NotInitialized));
            },
        }
        let marker = build_begin_marker(self.telemetry_id);
        match parse_feature_message(msg) {
            Err(e) => (Some(marker), Err(ClassifyError::Parse(e))),
            Ok(m) => {
                let row = m.features.to_row();
                (
                    Some(marker),
                    Ok(PendingClassification { batch_id: m.batch_id, features: m.features, row }),
                )
            },
        }
    }

    /// Closes one message's processing with the host's prediction: maps
    /// the integer class to its label — exhaustively, any class outside
    /// the known range is an explicit error, never a default label —
    /// emits the result carrying the original batch identifier and the
    /// end marker, and increments the telemetry counter exactly once.
    /// A failed or out-of-range prediction drops the message, leaving
    /// the counter untouched.
    pub fn finish_message(&mut self, pending: &PendingClassification, prediction: Option<i64>) -> (r:
        Result<CompletedClassification, ClassifyError>)
        requires
            old(self).phase == WorkerPhase::Ready,
            old(self).telemetry_id < u64::MAX,
        ensures
            final(self).phase == WorkerPhase::Ready,
            r matches Ok(done) ==> {
                &&& prediction matches Some(c) && spec_label_of_class(c as int) == Some(done.label)
                &&& done.result_msg@ == spec_result_json(pending.batch_id, done.label)
                &&& done.end_marker@ == spec_end_marker(old(self).telemetry_id)
                &&& final(self).telemetry_id == old(self).telemetry_id + 1
            },
            r is Err ==> final(self).telemetry_id == old(self).telemetry_id,
            r matches Err(e) ==> {
                &&& (e == ClassifyError::Shape <==> prediction is None)
                &&& (prediction matches Some(c) ==> e == ClassifyError::ClassOutOfRange
                    && spec_label_of_class(c as int) is None)
            },
            prediction matches Some(c) && spec_label_of_class(c as int) is Some ==> r is Ok,
    {
        let c = match prediction {
            None => return Err(ClassifyError::Shape),
            Some(c) => c,
        };
        let label = match label_of_class(c) {
            None => return Err(ClassifyError::ClassOutOfRange),
            Some(l) => l,
        };
        let result_msg = build_result_message(pending.batch_id, label);
        let end_marker = build_end_marker(self.telemetry_id);
        self.telemetry_id = self.telemetry_id + 1;
        Ok(CompletedClassification { label, result_msg, end_marker })
    }

    /// External shutdown: no further message is processed; an in-flight
    /// message is not guaranteed to complete.
    pub fn stop(&mut self)
        ensures
            final(self).phase == WorkerPhase::Stopped,
            final(self).telemetry_id == old(self).telemetry_id,
    {
        self.phase = WorkerPhase::Stopped;
    }
}

/// The streaming feature-extraction worker: one telemetry counter.
pub struct ExtractWorker {
    pub telemetry_id: u64,
}

/// One extracted batch: the feature payload to forward, its correlation
/// key, and the closing marker.
pub struct ExtractedBatch {
    pub batch_id: u64,
    pub features: FeatureVector,
    pub payload: Vec<u8>,
    pub end_marker: Vec<u8>,
}

impl ExtractWorker {
    /// A fresh extraction worker.
    pub fn new() -> (w: Self)
        ensures
            w.telemetry_id == 0,
    {
        ExtractWorker { telemetry_id: 0 }
    }

    /// Processes one sensor-batch message: parses it, summarises its
    /// window into the 28-statistic vector, and builds the feature
    /// message under the unchanged batch identifier.  A malformed or
    /// empty batch is dropped after the begin marker, leaving the
    /// telemetry counter untouched.
    pub fn process_batch(&mut self, msg: &[u8]) -> (r: (
        Vec<u8>,
        Result<ExtractedBatch, ExtractError>,
    ))
        requires
            old(self).telemetry_id < u64::MAX,
        ensures
            r.0@ == spec_begin_marker(old(self).telemetry_id),
            r.1 matches Ok(out) ==> {
                &&& exists|w: Seq<Sample>|
                    msg@ == spec_batch_json(out.batch_id, w) && w.len() > 0 && out.features
                        == spec_features(w)
                &&& out.payload@ == spec_feature_json(out.batch_id, out.features)
                &&& out.end_marker@ == spec_end_marker(old(self).telemetry_id)
                &&& final(self).telemetry_id == old(self).telemetry_id + 1
            },
            r.1 is Err ==> final(self).telemetry_id == old(self).telemetry_id,
            (exists|id: u64, w: Seq<Sample>|
                msg@ == #[trigger] spec_batch_json(id, w) && samples_wf(w) && 1 <= w.len()
                    <= SERIES_CAP) ==> r.1 is Ok,
    {
        let ghost has_canon = exists|id: u64, w: Seq<Sample>|
            msg@ == #[trigger] spec_batch_json(id, w) && samples_wf(w) && 1 <= w.len()
                <= SERIES_CAP;
        let ghost (id0, w0) = if has_canon {
            choose|id: u64, w: Seq<Sample>|
                msg@ == #[trigger] spec_batch_json(id, w) && samples_wf(w) && 1 <= w.len()
                    <= SERIES_CAP
        } else {
            (0u64, Seq::<Sample>::empty())
        };
        let marker = build_begin_marker(self.telemetry_id);
        let m = match parse_batch_message(msg) {
            Err(e) => return (marker, Err(ExtractError::Parse(e))),
            Ok(m) => m,
        };
        proof {
            if has_canon {
                lemma_batch_json_empty_agrees(m.batch_id, m.samples@, id0, w0);
                assert(m.samples@.len() > 0);
            }
        }
        let fv = match extract_features(&m.samples) {
            Err(_) => return (marker, Err(ExtractError::EmptyBatch)),
            Ok(fv) => fv,
        };
        let payload = build_feature_message(m.batch_id, &fv);
        let end_marker = build_end_marker(self.telemetry_id);
        self.telemetry_id = self.telemetry_id + 1;
        proof {
            assert(msg@ == spec_batch_json(m.batch_id, m.samples@) && m.samples@.len() > 0 && fv
                == spec_features(m.samples@));
        }
        (marker, Ok(ExtractedBatch { batch_id: m.batch_id, features: fv, payload, end_marker }))
    }
}

/// The display line announcing one detected activity.
pub open spec fn spec_detected_line(l: Label) -> Seq<u8> {
    match l {
        Label::Jogging => "'JOGGING' activity detected".spec_bytes(),
        Label::Walking => "'WALKING' activity detected".spec_bytes(),
        Label::Standing => "'STANDING' activity detected".spec_bytes(),
        Label::Stairs => "'STAIRS' activity detected".spec_bytes(),
        Label::Sitting => "'SITTING' activity detected".spec_bytes(),
    }
}

/// One handled classification result: the parsed message, the display
/// line, and the acknowledgement carrying the batch identifier onward.
pub struct ResultHandled {
    pub message: ResultMessage,
    pub line: Vec<u8>,
    pub ack: Vec<u8>,
}

/// Consumes one classification result message: renders its display line
/// and passes the batch identifier on.  A malformed message is dropped.
pub fn handle_result_message(msg: &[u8]) -> (r: Result<
    ResultHandled,
    crate::errors::ParseError,
>)
    ensures
        r matches Ok(h) ==> {
            &&& msg@ == spec_result_json(h.message.batch_id, h.message.label)
            &&& h.line@ == spec_detected_line(h.message.label)
            &&& h.ack@ == digits_of(h.message.batch_id as int)
        },
        (exists|id: u64, l: Label| msg@ == #[trigger] spec_result_json(id, l)) ==> r is Ok,
{
    let m = match parse_result_message(msg) {
        Err(e) => return Err(e),
        Ok(m) => m,
    };
    let mut line: Vec<u8> = Vec::new();
    match m.label {
        Label::Jogging => push_lit("'JOGGING' activity detected", &mut line),
        Label::Walking => push_lit("'WALKING' activity detected", &mut line),
        Label::Standing => push_lit("'STANDING' activity detected", &mut line),
        Label::Stairs => push_lit("'STAIRS' activity detected", &mut line),
        Label::Sitting => push_lit("'SITTING' activity detected", &mut line),
    }
    let mut ack: Vec<u8> = Vec::new();
    push_digits(m.batch_id, &mut ack);
    Ok(ResultHandled { message: m, line, ack })
}

} // verus!
