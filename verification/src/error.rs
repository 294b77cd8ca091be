//! Errors.
use crate::text::{decimal, hex, push_decimal, push_hex};
use vstd::prelude::*;
use vstd::string::StringExecFns;

verus! {

/// Error types for ring operations.
#[derive(Debug)]
pub enum RingfireError {
    /// An underlying I/O error occurred; carries its description.
    Io(String),
    /// Ring capacity is not a power of two.
    InvalidCapacity(u64),
    /// Shared memory magic bytes did not match expected value.
    InvalidMagic { expected: u64, actual: u64 },
    /// Version mismatch between binary and shared memory header.
    VersionMismatch { expected: u32, actual: u32 },
    /// Element size mismatch between struct definition and ring header.
    ElementSizeMismatch { expected: usize, actual: usize },
    /// Producer already exists and holds exclusive lock.
    ProducerAlreadyExists,
    /// Key out of range for blackboard.
    KeyOutOfRange { key: usize, capacity: usize },
    /// Value size mismatch for blackboard.
    ValueSizeMismatch { expected: usize, actual: usize },
    /// Layout signature / schema fingerprint mismatch across processes; `name` is the name
    /// of the reader's record type.
    SchemaMismatch { expected: u64, actual: u64, name: String },
    /// Payload exceeds maximum arena capacity.
    ArenaPayloadTooLarge { len: usize, max_capacity: usize },
    /// Provided output buffer is too small for payload.
    BufferTooSmall { required: usize, provided: usize },
    /// Reader registry is full (all slots occupied).
    NoAvailableReaderSlots,
    /// No offset file was configured for this consumer.
    NoOffsetFileConfigured,
    /// Ring buffer is full under lossless backpressure flow control.
    BackpressureBufferFull,
    /// Shared memory region is truncated, foreign, or its header points outside the mapping.
    CorruptLayout(&'static str),
    /// A blackboard slot stayed mid-write for too long (writer stalled or crashed).
    WriterStalled { key: usize },
    /// The ring has a feature that the operation cannot handle.
    Unsupported(&'static str),
    /// A peer broke the replication protocol.
    Protocol(&'static str),
}

impl RingfireError {
    /// The text that describes this error.
    pub open spec fn text(self) -> Seq<char> {
        match self {
            RingfireError::Io(err) => "I/O error: "@ + err@,
            RingfireError::InvalidCapacity(cap) => "Capacity "@ + decimal(cap as nat)
                + " is invalid: must be a power of two"@,
            RingfireError::InvalidMagic { expected, actual } => "Invalid magic header: expected 0x"@
                + hex(expected as nat, 16, true) + ", got 0x"@ + hex(actual as nat, 16, true),
            RingfireError::VersionMismatch { expected, actual } => "Version mismatch: expected "@
                + decimal(expected as nat) + ", got "@ + decimal(actual as nat),
            RingfireError::ElementSizeMismatch { expected, actual } =>
                "Element size mismatch: expected "@ + decimal(expected as nat) + " bytes, got "@
                + decimal(actual as nat) + " bytes"@,
            RingfireError::ProducerAlreadyExists =>
                "Exclusive producer already exists for this shared memory path"@,
            RingfireError::KeyOutOfRange { key, capacity } => "Blackboard key "@ + decimal(key as nat)
                + " out of range (capacity: "@ + decimal(capacity as nat) + ")"@,
            RingfireError::ValueSizeMismatch { expected, actual } =>
                "Blackboard value size mismatch: expected "@ + decimal(expected as nat)
                + " bytes, got "@ + decimal(actual as nat) + " bytes"@,
            RingfireError::SchemaMismatch { expected, actual, name } =>
                "Schema signature mismatch for type '"@ + name@ + "': expected 0x"@
                + hex(expected as nat, 16, true) + ", got 0x"@ + hex(actual as nat, 16, true),
            RingfireError::ArenaPayloadTooLarge { len, max_capacity } => "Payload size ("@
                + decimal(len as nat) + " bytes) exceeds arena capacity ("@
                + decimal(max_capacity as nat) + " bytes)"@,
            RingfireError::BufferTooSmall { required, provided } =>
                "Output buffer too small: required "@ + decimal(required as nat)
                + " bytes, provided "@ + decimal(provided as nat) + " bytes"@,
            RingfireError::NoAvailableReaderSlots =>
                "Reader registry full: no free slots available"@,
            RingfireError::NoOffsetFileConfigured => "No offset file configured for this consumer"@,
            RingfireError::BackpressureBufferFull =>
                "Ring buffer is full: slowest active reader has not caught up"@,
            RingfireError::CorruptLayout(what) => "Corrupt shared memory layout: "@ + what@,
            RingfireError::WriterStalled { key } => "Blackboard key "@ + decimal(key as nat)
                + " stayed mid-write: writer stalled or crashed"@,
            RingfireError::Unsupported(what) => "Unsupported: "@ + what@,
            RingfireError::Protocol(what) => "Replication protocol error: "@ + what@,
        }
    }

    /// Describes this error in words.
    pub fn message(&self) -> (out: String)
        ensures
            out@ == self.text(),
    {
        match self {
            RingfireError::Io(err) => {
                let mut out = String::from_str("I/O error: ");
                out.append(err.as_str());
                out
            },
            RingfireError::InvalidCapacity(cap) => {
                let mut out = String::from_str("Capacity ");
                push_decimal(&mut out, *cap);
                out.append(" is invalid: must be a power of two");
                out
            },
            RingfireError::InvalidMagic { expected, actual } => {
                let mut out = String::from_str("Invalid magic header: expected 0x");
                push_hex(&mut out, *expected, 16, true);
                out.append(", got 0x");
                push_hex(&mut out, *actual, 16, true);
                out
            },
            RingfireError::VersionMismatch { expected, actual } => {
                let mut out = String::from_str("Version mismatch: expected ");
                push_decimal(&mut out, *expected as u64);
                out.append(", got ");
                push_decimal(&mut out, *actual as u64);
                out
            },
            RingfireError::ElementSizeMismatch { expected, actual } => {
                let mut out = String::from_str("Element size mismatch: expected ");
                push_decimal(&mut out, *expected as u64);
                out.append(" bytes, got ");
                push_decimal(&mut out, *actual as u64);
                out.append(" bytes");
                out
            },
            RingfireError::ProducerAlreadyExists => String::from_str(
                "Exclusive producer already exists for this shared memory path",
            ),
            RingfireError::KeyOutOfRange { key, capacity } => {
                let mut out = String::from_str("Blackboard key ");
                push_decimal(&mut out, *key as u64);
                out.append(" out of range (capacity: ");
                push_decimal(&mut out, *capacity as u64);
                out.append(")");
                out
            },
            RingfireError::ValueSizeMismatch { expected, actual } => {
                let mut out = String::from_str("Blackboard value size mismatch: expected ");
                push_decimal(&mut out, *expected as u64);
                out.append(" bytes, got ");
                push_decimal(&mut out, *actual as u64);
                out.append(" bytes");
                out
            },
            RingfireError::SchemaMismatch { expected, actual, name } => {
                let mut out = String::from_str("Schema signature mismatch for type '");
                out.append(name.as_str());
                out.append("': expected 0x");
                push_hex(&mut out, *expected, 16, true);
                out.append(", got 0x");
                push_hex(&mut out, *actual, 16, true);
                out
            },
            RingfireError::ArenaPayloadTooLarge { len, max_capacity } => {
                let mut out = String::from_str("Payload size (");
                push_decimal(&mut out, *len as u64);
                out.append(" bytes) exceeds arena capacity (");
                push_decimal(&mut out, *max_capacity as u64);
                out.append(" bytes)");
                out
            },
            RingfireError::BufferTooSmall { required, provided } => {
                let mut out = String::from_str("Output buffer too small: required ");
                push_decimal(&mut out, *required as u64);
                out.append(" bytes, provided ");
                push_decimal(&mut out, *provided as u64);
                out.append(" bytes");
                out
            },
            RingfireError::NoAvailableReaderSlots => String::from_str(
                "Reader registry full: no free slots available",
            ),
            RingfireError::NoOffsetFileConfigured => String::from_str(
                "No offset file configured for this consumer",
            ),
            RingfireError::BackpressureBufferFull => String::from_str(
                "Ring buffer is full: slowest active reader has not caught up",
            ),
            RingfireError::CorruptLayout(what) => {
                let mut out = String::from_str("Corrupt shared memory layout: ");
                out.append(what);
                out
            },
            RingfireError::WriterStalled { key } => {
                let mut out = String::from_str("Blackboard key ");
                push_decimal(&mut out, *key as u64);
                out.append(" stayed mid-write: writer stalled or crashed");
                out
            },
            RingfireError::Unsupported(what) => {
                let mut out = String::from_str("Unsupported: ");
                out.append(what);
                out
            },
            RingfireError::Protocol(what) => {
                let mut out = String::from_str("Replication protocol error: ");
                out.append(what);
                out
            },
        }
    }
}

} // verus!
