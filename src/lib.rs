//! Resolution of SenML (RFC 8428) record packs into self-contained records.
//!
//! A pack is a sequence of terse records whose base fields (name prefix, time
//! offset, unit, value and sum offsets, version) apply to the records that
//! follow them. [`resolve::resolve_records`] applies them and yields one
//! self-contained [`SenMLResolvedRecord`] per record, or the first error;
//! [`SenMLResolvedRecord::wire_fields`] gives the fields a resolved record is
//! written with. Numbers are decimals ([`Decimal`]): a value plus its base is
//! exact wherever it fits 128 bits, and otherwise taken toward zero at the
//! first power of ten where it does. Points in time are seconds and
//! nanoseconds since the Unix epoch ([`Timestamp`]).
pub mod encoding;
pub mod laws;
pub mod number;
pub mod number_text;
pub mod record;
pub mod resolve;
pub mod time;
pub mod validate_name;
pub mod wire;

pub use number::Decimal;
pub use record::{SenMLRecord, SenMLResolvedRecord, SenMLValueField, SinditSenMLError};
pub use time::Timestamp;
