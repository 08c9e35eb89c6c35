//! How an object store log is set up.
use vstd::prelude::*;
use vstd::string::*;

use crate::actor::ActorSettings;
use crate::actor_model::AckMode;
use crate::error::{Error, InvalidSetting};
use crate::object::{check_prefix, is_prefix};

verus! {

/// The shortest flush interval, in nanoseconds.
pub const MIN_FLUSH_INTERVAL: u64 = 10_000_000;

/// Delay before a create that failed transiently is attempted again, in nanoseconds.
pub const CREATE_RETRY_DELAY: u64 = 100_000_000;

/// Number of requests that wait for the actor.
pub const COMMAND_BUFFER: usize = 1024;

/// What a read does with a segment that does not decode.
#[derive(Clone, Copy, Debug, PartialEq, Eq, Structural)]
pub enum CorruptedSegmentAction {
    /// The segment is skipped and recorded as a hole.
    Skip,
    /// The read fails.
    Fail,
}

/// Object store log configuration of a node. Durations are in nanoseconds, sizes in bytes.
#[derive(Debug, PartialEq, Eq)]
pub struct ObjectStoreWalConfig {
    /// Name of the storage provider that holds the objects. An empty name selects the default
    /// object store.
    pub storage_provider: String,
    /// Path prefix of the objects inside the storage provider.
    pub prefix: String,
    /// Interval of flushing buffered entries to the object store.
    pub flush_interval: u64,
    /// The size at which a batch is sealed.
    pub max_batch_bytes: u64,
    /// When an append is acknowledged.
    pub ack_mode: AckMode,
    /// The unpersisted size at which appends stall in the enqueued mode.
    pub max_unpersisted_bytes: u64,
    /// The unpersisted age at which appends stall in the enqueued mode.
    pub max_unpersisted_age: u64,
    /// What a read does with a segment that does not decode.
    pub on_corrupted_segment: CorruptedSegmentAction,
}

impl Default for ObjectStoreWalConfig {
    fn default() -> (config: ObjectStoreWalConfig)
        ensures
            config.storage_provider@ == Seq::<char>::empty(),
            config.prefix@ == "wal"@,
            config.flush_interval == 1_000_000_000,
            config.max_batch_bytes == 8_388_608,
            config.ack_mode == AckMode::Durable,
            config.max_unpersisted_bytes == 67_108_864,
            config.max_unpersisted_age == 8_000_000_000,
            config.on_corrupted_segment == CorruptedSegmentAction::Skip,
    {
        ObjectStoreWalConfig {
            storage_provider: String::new(),
            prefix: "wal".to_owned(),
            flush_interval: 1_000_000_000,
            max_batch_bytes: 8_388_608,
            ack_mode: AckMode::Durable,
            max_unpersisted_bytes: 67_108_864,
            max_unpersisted_age: 8_000_000_000,
            on_corrupted_segment: CorruptedSegmentAction::Skip,
        }
    }
}

/// Whether a size is positive and can be counted.
pub open spec fn is_positive_size(bytes: u64) -> bool {
    0 < bytes <= usize::MAX
}

/// The size, if it is positive and can be counted.
pub fn positive_bytes(bytes: u64) -> (size: Option<usize>)
    ensures
        match size {
            Some(size) => is_positive_size(bytes) && size == bytes,
            None => !is_positive_size(bytes),
        },
{
    if 0 < bytes && bytes <= usize::MAX as u64 {
        Some(bytes as usize)
    } else {
        None
    }
}

impl ObjectStoreWalConfig {
    /// The first setting that a store cannot be opened with.
    pub open spec fn invalid_setting(self) -> Option<InvalidSetting> {
        if !is_prefix(self.prefix@) {
            Some(InvalidSetting::Prefix)
        } else if self.flush_interval < MIN_FLUSH_INTERVAL {
            Some(InvalidSetting::FlushInterval { nanos: self.flush_interval })
        } else if !is_positive_size(self.max_batch_bytes) {
            Some(InvalidSetting::MaxBatchBytes { bytes: self.max_batch_bytes })
        } else if !is_positive_size(self.max_unpersisted_bytes) {
            Some(InvalidSetting::MaxUnpersistedBytes { bytes: self.max_unpersisted_bytes })
        } else if self.max_unpersisted_age == 0 {
            Some(InvalidSetting::MaxUnpersistedAge)
        } else {
            None
        }
    }

    /// Checks the settings and returns what the actor is set up with.
    pub fn actor_settings(&self, writer_instance: u128) -> (result: Result<ActorSettings, Error>)
        ensures
            match self.invalid_setting() {
                Some(reason) => result == Err::<ActorSettings, Error>(
                    Error::InvalidWalObjectStore { reason },
                ),
                None => result matches Ok(settings) && settings.ack_mode == self.ack_mode
                    && settings.max_batch_bytes == self.max_batch_bytes
                    && settings.max_unpersisted_bytes == self.max_unpersisted_bytes
                    && settings.max_unpersisted_age == self.max_unpersisted_age
                    && settings.writer_instance == writer_instance,
            },
    {
        if !check_prefix(&self.prefix) {
            return Err(Error::InvalidWalObjectStore { reason: InvalidSetting::Prefix });
        }
        if self.flush_interval < MIN_FLUSH_INTERVAL {
            let reason = InvalidSetting::FlushInterval { nanos: self.flush_interval };
            return Err(Error::InvalidWalObjectStore { reason });
        }
        let max_batch_bytes: usize = match positive_bytes(self.max_batch_bytes) {
            Some(bytes) => bytes,
            None => {
                let reason = InvalidSetting::MaxBatchBytes { bytes: self.max_batch_bytes };
                return Err(Error::InvalidWalObjectStore { reason });
            },
        };
        let max_unpersisted_bytes: usize = match positive_bytes(self.max_unpersisted_bytes) {
            Some(bytes) => bytes,
            None => {
                let reason = InvalidSetting::MaxUnpersistedBytes {
                    bytes: self.max_unpersisted_bytes,
                };
                return Err(Error::InvalidWalObjectStore { reason });
            },
        };
        if self.max_unpersisted_age == 0 {
            return Err(Error::InvalidWalObjectStore { reason: InvalidSetting::MaxUnpersistedAge });
        }
        Ok(
            ActorSettings {
                ack_mode: self.ack_mode,
                max_batch_bytes,
                max_unpersisted_bytes,
                max_unpersisted_age: self.max_unpersisted_age,
                writer_instance,
            },
        )
    }
}

} // verus!
