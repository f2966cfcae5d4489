//! Verified core of a streaming activity-classification pipeline.
//!
//! Accelerometer samples are carried as fixed-point integers (a signed
//! sensor value scaled by the caller's choice of unit).  The library
//! verifies the windowed statistical feature extraction, the grouping of
//! labeled sample streams into fixed-size windows, the label mapping, the
//! canonical byte-level message codec that the workers exchange, the
//! packaging of an opaque trained model for a text-oriented store, and the
//! state machines of the offline trainer and the streaming classification
//! worker.  Training and prediction themselves are delegated to an outside
//! learning library and reach this crate only as opaque byte artifacts and
//! integer class results.

pub mod codec;
pub mod errors;
pub mod features;
pub mod generator;
pub mod label;
pub mod stats;
pub mod store;
pub mod trainer;
pub mod windowing;
pub mod wire;
pub mod worker;
