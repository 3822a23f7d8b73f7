use vstd::prelude::*;

verus! {

/// Why a log entry pulled from the topic could not be decoded.
#[derive(Clone, Copy, Debug, PartialEq, Eq, Structural)]
pub enum DecodeError {
    /// The buffer ended before a declared length was satisfied.
    Truncated,
    /// The payload's leading tag names no known value kind.
    UnknownTag,
    /// Bytes remained after a complete entry was read.
    TrailingBytes,
}

/// Why an entry could not be prepared for appending to the log topic.
#[derive(Clone, Copy, Debug, PartialEq, Eq, Structural)]
pub enum ProduceError {
    /// A store name, key, or value field exceeds the wire format's
    /// four-byte length headers.
    OversizedField,
    /// The encoded record exceeds the broker's message size limit.
    MessageTooLarge,
}

/// Why a writer or reader could not be constructed.
#[derive(Clone, Copy, Debug, PartialEq, Eq, Structural)]
pub enum ConnectionError {
    /// The broker did not answer the startup probe.
    BrokerUnreachable,
}

/// Why a cluster could not be registered with the metadata fetcher.
#[derive(Clone, Copy, Debug, PartialEq, Eq, Structural)]
pub enum RegistrationError {
    /// A cluster of the same name is already registered.
    DuplicateName,
    /// The cluster did not answer the registration-time probe.
    ClusterUnreachable,
}

} // verus!
