//! An authenticated keyed-record store.
//!
//! A record lives in a storage slot whose address is derived from the
//! owner's identity and the record's symbol. Only the owner may replace the
//! record's payload, and every write is framed into the space that was
//! reserved when the record was created.

pub mod address;
pub mod error;
pub mod record;
pub mod store;
pub mod wire;

pub use address::derive_address;
pub use error::ErrorCode;
pub use record::{Prediction, PredictionData};
pub use store::{
    initialize_prediction, space, update_prediction, InitializePrediction, Slot, UpdatePrediction,
};
