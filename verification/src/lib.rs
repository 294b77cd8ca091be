//! # ringfire
//!
//! Inter-process communication over shared memory: rings of fixed-size records, byte arenas
//! for records of variable size, a registry of readers, and a table of the latest value per
//! key, written and verified in Verus.
//!
//! The library works on plain values and decides one memory access at a time. Programs that
//! share a mapping perform the accesses that it asks for; [`ring::Ring`] and
//! [`blackboard::Blackboard`] are the same structures as values, on which every operation
//! runs to its end.
pub mod arena;
pub mod async_ring;
pub mod blackboard;
pub mod blob;
pub mod bytes;
pub mod checkpoint;
pub mod cli;
pub mod consumer;
pub mod error;
pub mod head;
pub mod header;
pub mod inspect;
pub mod math;
pub mod mpmc;
pub mod multiplexer;
pub mod raw;
pub mod registry;
pub mod replication;
pub mod ring;
pub mod shm;
pub mod signature;
pub mod slot;
pub mod spmc;
pub mod text;
pub mod tsc;
pub mod wait;

pub use arena::{BlobRef, PayloadArena};
pub use async_ring::AsyncRingConsumer;
pub use blackboard::{BlackboardConsumer, BlackboardProducer};
pub use blob::{BlobConsumer, BlobProducer, BlobProducerBuilder, BlobRecvStatus};
pub use checkpoint::OffsetCheckpoint;
pub use consumer::{ConsumerStartMode, RingConsumer, RingConsumerBuilder};
pub use error::RingfireError;
pub use header::{
    BlackboardHeader, BlackboardSlot, RingHeader, Slot, BLACKBOARD_MAGIC, BLACKBOARD_VERSION,
    FLAG_MODE_MPMC, FLAG_MODE_SPMC, FLAG_POLICY_LATEST_WINS, RINGFIRE_MAGIC, RINGFIRE_VERSION,
};
pub use mpmc::{MpmcProducer, MpmcQueueConsumer};
pub use multiplexer::{AsyncRingMultiplexer, RingMultiplexer};
pub use registry::{ReaderInfo, ReaderRegistration, ReaderRegistry};
pub use ring::Ring;
pub use signature::LayoutSignature;
pub use spmc::{CleanupMode, FlowControl, RecvStatus, RingProducer, RingProducerBuilder};
pub use tsc::CycleStamp;
pub use wait::{BusySpin, FutexWait, WaitStrategy, YieldBackoff};
