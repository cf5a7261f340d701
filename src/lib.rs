//! Treasury payout scheduling and settlement.
//!
//! The library keeps a pool of payout requests (one-time, recurring and
//! linearly vested), gates them behind a threshold approval policy, decides
//! on every tick which of them may be paid, and archives what settled or was
//! cancelled.  Everything that touches the host (the clock, the caller, the
//! currency transfer, event emission) is left to the embedding code, which
//! hands the library plain values.
//!
//! Settlement runs in two steps around the host's transfers:
//! [`Treasury::begin_settlement`] sets the re-entrancy latch and lists the
//! payments due, the host makes them, and [`Treasury::finish_settlement`]
//! (or [`Treasury::abort_settlement`] when a payment failed) applies the
//! outcome.
//!
//! Modules: `amount` (precision rule), `policy` (approval table), `payout`
//! (records and schedules), `model` (the treasury as sequences and its
//! invariant), `treasury` (the aggregate and its operations), `laws`
//! (properties across calls).

pub mod amount;
pub mod laws;
pub mod model;
pub mod payout;
pub mod policy;
pub mod treasury;
pub mod types;

pub use amount::{is_valid_precision_amount, PRECISION_FACTOR};
pub use model::{Transfer, MAX_APPROVALS};
pub use payout::{PayoutKind, Payout, PayoutRequest};
pub use policy::{default_thresholds, Threshold};
pub use treasury::Treasury;
pub use types::{Address, Amount, Error, PayoutCancelled, PayoutId, PayoutStatus, PayoutType, Tick};
