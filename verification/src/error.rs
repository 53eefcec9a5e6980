//! The failures that the library reports, and the text of each.
use crate::metal::{ConfigFault, MetalSetting};
use crate::ring::GpuApi;
use crate::text::decimal_text;
use vstd::prelude::*;
use vstd::string::StringExecFns;

verus! {

use crate::text::decimal_chars;

/// Why an operation was refused or abandoned.
#[derive(Clone, Debug, PartialEq, Eq)]
pub enum Error {
    /// Thirty-two bytes that are no scalar of the curve.
    InvalidScalar,
    /// A chain of consecutive scalars ran past the curve order.
    ChainLeavesRange,
    /// An address index with no chain start for it.
    IndexOutsideBatch,
    /// A batch whose key count does not fit its address count.
    BatchKeyCount,
    /// A destination too short for one scalar per address.
    ExpandedBufferTooSmall,
    /// A chain increment that wrapped past the 256-bit range.
    ChainWrapped,
    /// A computed address that the CPU derivation does not confirm.
    AddressMismatch,
    /// A backend that takes no batches ahead of time.
    BeginUnsupported,
    /// A startup chain that ran past the curve order.
    SelfTestOverflow,
    /// A batch with another number of keys than of addresses.
    BatchLengths,
    /// Metal was asked for and is not there.
    MetalUnavailable,
    /// CUDA was asked for and is not there.
    CudaUnavailable,
    /// Vulkan was asked for and is not there.
    VulkanUnavailable,
    /// The operating system had no entropy to give.
    NoEntropy,
    /// Two table points whose sum is no point.
    TablePointAddition,
    /// A generator that never gave a usable scalar.
    EntropyExhausted,
    /// A batch size outside the allowed range.
    InvalidBatchSize,
    /// More attempts than can be counted.
    AttemptOverflow,
    /// A batch with more addresses than the device was opened for.
    BatchExceedsCapacity(GpuApi),
    /// A batch with no free slot for it.
    SlotsExhausted(GpuApi),
    /// A batch asked for where none was submitted.
    NothingInFlight(GpuApi),
    /// A batch collected under another address count than it was submitted.
    InFlightCountMismatch(GpuApi),
    /// A device that copied out another number of address bytes.
    AddressBytes,
    /// A device opened for a batch size outside the allowed range.
    InvalidCapacity(GpuApi),
    /// A failure outside this library, in its own words.
    Reported(String),
    /// A group size that cannot be asked for.
    UnsupportedTuningGroup,
    /// A group size that the kernel does not take.
    InvalidTunedGroup,
    /// A kernel whose thread limits make no sense.
    InvalidThreadLimits,
    /// A group size that cannot be launched.
    InvalidDispatchGroup,
    /// Metal settings that do not go together.
    MetalConfig(ConfigFault),
    /// A setting that is neither 0 nor 1.
    FlagSetting(MetalSetting),
    /// A setting that is no number, or too large.
    NumberSetting(MetalSetting),
    /// A queue of batches whose sender is gone.
    SourceDisconnected,
    /// A queue of batches whose receiver is gone.
    ConsumerDisconnected,
    /// A wait that outlasted every poll that can be counted.
    WaitExhausted,
    /// A batch asked for before the last one was given back.
    BatchNotRecycled,
    /// A batch that came out of turn.
    BatchOrder,
    /// More batches than can be numbered.
    SequenceOverflow,
    /// A batch size outside the range of a search that draws keys ahead.
    InvalidPipelineBatch,
    /// A GPU batch size that is no number in the allowed range.
    InvalidGpuBatchSize,
    /// A panic on the thread that draws keys.
    ProducerPanicked,
    /// A prefix or suffix with a character that is no hex digit.
    TargetsNotHex,
    /// A prefix or suffix longer than an address.
    TargetsTooLong,
    /// A prefix and a suffix that overlap and disagree there.
    ImpossibleFilter { prefix_tail: String, suffix_head: String, overlap: usize },
}

/// The interface's name in messages.
pub open spec fn api_name(api: GpuApi) -> Seq<char> {
    match api {
        GpuApi::Metal => "Metal"@,
        GpuApi::Cuda => "CUDA"@,
        GpuApi::Vulkan => "Vulkan"@,
    }
}

/// The interface's name in messages.
fn api_text(api: GpuApi) -> (r: &'static str)
    ensures
        r@ == api_name(api),
{
    match api {
        GpuApi::Metal => "Metal",
        GpuApi::Cuda => "CUDA",
        GpuApi::Vulkan => "Vulkan",
    }
}

/// What is wrong with the settings, in words.
pub open spec fn fault_name(fault: ConfigFault) -> Seq<char> {
    match fault {
        ConfigFault::Window => "VANITY_BENCH_WINDOW must be 4, 8 or 16"@,
        ConfigFault::Inflight => "VANITY_BENCH_INFLIGHT must be 1 or 2"@,
        ConfigFault::Chunk => "VANITY_BENCH_CHUNK must be 0, 4, 8, 16 or 32"@,
        ConfigFault::ChunkWithInvert => "chunked and threadgroup inversion are mutually exclusive"@,
        ConfigFault::FuseWithoutChunk => "VANITY_BENCH_FUSE requires chunked inversion"@,
        ConfigFault::FuseWithInvert => "fused and threadgroup inversion are mutually exclusive"@,
        ConfigFault::Stride => "VANITY_BENCH_STRIDE must be 1, or 8/16/32/64 with fused chunk inversion"@,
    }
}

/// What is wrong with the settings, in words.
fn fault_text(fault: ConfigFault) -> (r: &'static str)
    ensures
        r@ == fault_name(fault),
{
    match fault {
        ConfigFault::Window => "VANITY_BENCH_WINDOW must be 4, 8 or 16",
        ConfigFault::Inflight => "VANITY_BENCH_INFLIGHT must be 1 or 2",
        ConfigFault::Chunk => "VANITY_BENCH_CHUNK must be 0, 4, 8, 16 or 32",
        ConfigFault::ChunkWithInvert => "chunked and threadgroup inversion are mutually exclusive",
        ConfigFault::FuseWithoutChunk => "VANITY_BENCH_FUSE requires chunked inversion",
        ConfigFault::FuseWithInvert => "fused and threadgroup inversion are mutually exclusive",
        ConfigFault::Stride => "VANITY_BENCH_STRIDE must be 1, or 8/16/32/64 with fused chunk inversion",
    }
}

/// One text after another.
fn joined(first: &str, second: &str, third: &str) -> (r: String)
    ensures
        r@ == first@ + second@ + third@,
{
    let mut text: String = first.to_owned();
    text.append(second);
    text.append(third);
    text
}

impl Error {
    /// The message.
    pub open spec fn text(&self) -> Seq<char> {
        match self {
            Error::InvalidScalar => "malformed or out-of-range secret key"@,
            Error::ChainLeavesRange => "chain leaves scalar range"@,
            Error::IndexOutsideBatch => "address index outside the key batch"@,
            Error::BatchKeyCount => "batch key count does not match address count"@,
            Error::ExpandedBufferTooSmall => "expanded key buffer too small"@,
            Error::ChainWrapped => "chain wrapped past 2^256"@,
            Error::AddressMismatch => "GPU/CPU address verification failed"@,
            Error::BeginUnsupported => "begin_batch is GPU-only"@,
            Error::SelfTestOverflow => "self-test chain overflow"@,
            Error::BatchLengths => "batch input/output lengths differ"@,
            Error::MetalUnavailable => "Metal unavailable: no accessible GPU or unsupported platform"@,
            Error::CudaUnavailable => "CUDA unavailable: no accessible GPU or unsupported platform"@,
            Error::VulkanUnavailable => "Vulkan unavailable: no accessible GPU or unsupported platform"@,
            Error::NoEntropy => "cannot seed search CSPRNG"@,
            Error::TablePointAddition => "table point addition failed"@,
            Error::EntropyExhausted => "search CSPRNG never gave a usable scalar"@,
            Error::InvalidBatchSize => "invalid search batch size"@,
            Error::AttemptOverflow => "attempt counter overflow"@,
            Error::AddressBytes => "device returned an unexpected number of address bytes"@,
            Error::UnsupportedTuningGroup => "unsupported tuning group"@,
            Error::InvalidTunedGroup => "invalid tuned threadgroup size"@,
            Error::InvalidThreadLimits => "invalid Metal pipeline thread limits"@,
            Error::InvalidDispatchGroup => "invalid dispatch group"@,
            Error::SourceDisconnected => "batch source disconnected unexpectedly"@,
            Error::ConsumerDisconnected => "batch consumer disconnected unexpectedly"@,
            Error::WaitExhausted => "wait outlasted every poll"@,
            Error::BatchNotRecycled => "batch not recycled"@,
            Error::BatchOrder => "prepared batch order mismatch"@,
            Error::SequenceOverflow => "batch sequence overflow"@,
            Error::InvalidPipelineBatch => "invalid pipeline batch size"@,
            Error::InvalidGpuBatchSize => "batch size must be in 1..=262144"@,
            Error::ProducerPanicked => "private-key producer panicked"@,
            Error::TargetsNotHex => "prefix and suffix may only contain hex characters 0-9a-f (no 0x)"@,
            Error::TargetsTooLong => "prefix and suffix must be at most 40 hex digits"@,
            Error::BatchExceedsCapacity(api) => "batch exceeds "@ + api_name(*api) + " capacity"@,
            Error::SlotsExhausted(api) => api_name(*api) + " in-flight slots exhausted"@,
            Error::NothingInFlight(api) => "no in-flight "@ + api_name(*api) + " batch to collect"@,
            Error::InFlightCountMismatch(api) => "address count differs from the in-flight "@ + api_name(*api) + " batch"@,
            Error::InvalidCapacity(api) => "invalid "@ + api_name(*api) + " batch capacity"@,
            Error::Reported(text) => text@,
            Error::MetalConfig(fault) => fault_name(*fault),
            Error::FlagSetting(setting) => "VANITY_BENCH_"@ + setting.variable() + " must be 0 or 1"@,
            Error::NumberSetting(setting) => "invalid benchmark "@ + setting.word(),
            Error::ImpossibleFilter { prefix_tail, suffix_head, overlap } => {
                "impossible filter: prefix tail "@ + prefix_tail@ + " and suffix head "@
                    + suffix_head@ + " disagree on "@ + decimal_chars(*overlap as nat)
                    + " overlapping digits"@
            },
        }
    }

    /// The message. It never holds a key.
    pub fn message(&self) -> (r: String)
        ensures
            r@ == self.text(),
    {
        match self {
            Error::InvalidScalar => "malformed or out-of-range secret key".to_owned(),
            Error::ChainLeavesRange => "chain leaves scalar range".to_owned(),
            Error::IndexOutsideBatch => "address index outside the key batch".to_owned(),
            Error::BatchKeyCount => "batch key count does not match address count".to_owned(),
            Error::ExpandedBufferTooSmall => "expanded key buffer too small".to_owned(),
            Error::ChainWrapped => "chain wrapped past 2^256".to_owned(),
            Error::AddressMismatch => "GPU/CPU address verification failed".to_owned(),
            Error::BeginUnsupported => "begin_batch is GPU-only".to_owned(),
            Error::SelfTestOverflow => "self-test chain overflow".to_owned(),
            Error::BatchLengths => "batch input/output lengths differ".to_owned(),
            Error::MetalUnavailable => "Metal unavailable: no accessible GPU or unsupported platform".to_owned(),
            Error::CudaUnavailable => "CUDA unavailable: no accessible GPU or unsupported platform".to_owned(),
            Error::VulkanUnavailable => "Vulkan unavailable: no accessible GPU or unsupported platform".to_owned(),
            Error::NoEntropy => "cannot seed search CSPRNG".to_owned(),
            Error::TablePointAddition => "table point addition failed".to_owned(),
            Error::EntropyExhausted => "search CSPRNG never gave a usable scalar".to_owned(),
            Error::InvalidBatchSize => "invalid search batch size".to_owned(),
            Error::AttemptOverflow => "attempt counter overflow".to_owned(),
            Error::AddressBytes => "device returned an unexpected number of address bytes".to_owned(),
            Error::UnsupportedTuningGroup => "unsupported tuning group".to_owned(),
            Error::InvalidTunedGroup => "invalid tuned threadgroup size".to_owned(),
            Error::InvalidThreadLimits => "invalid Metal pipeline thread limits".to_owned(),
            Error::InvalidDispatchGroup => "invalid dispatch group".to_owned(),
            Error::SourceDisconnected => "batch source disconnected unexpectedly".to_owned(),
            Error::ConsumerDisconnected => "batch consumer disconnected unexpectedly".to_owned(),
            Error::WaitExhausted => "wait outlasted every poll".to_owned(),
            Error::BatchNotRecycled => "batch not recycled".to_owned(),
            Error::BatchOrder => "prepared batch order mismatch".to_owned(),
            Error::SequenceOverflow => "batch sequence overflow".to_owned(),
            Error::InvalidPipelineBatch => "invalid pipeline batch size".to_owned(),
            Error::InvalidGpuBatchSize => "batch size must be in 1..=262144".to_owned(),
            Error::ProducerPanicked => "private-key producer panicked".to_owned(),
            Error::TargetsNotHex => "prefix and suffix may only contain hex characters 0-9a-f (no 0x)".to_owned(),
            Error::TargetsTooLong => "prefix and suffix must be at most 40 hex digits".to_owned(),
            Error::BatchExceedsCapacity(api) => joined("batch exceeds ", api_text(*api), " capacity"),
            Error::SlotsExhausted(api) => {
                let mut text: String = api_text(*api).to_owned();
                text.append(" in-flight slots exhausted");
                text
            },
            Error::NothingInFlight(api) => joined("no in-flight ", api_text(*api), " batch to collect"),
            Error::InFlightCountMismatch(api) => joined("address count differs from the in-flight ", api_text(*api), " batch"),
            Error::InvalidCapacity(api) => joined("invalid ", api_text(*api), " batch capacity"),
            Error::Reported(text) => text.clone(),
            Error::MetalConfig(fault) => fault_text(*fault).to_owned(),
            Error::FlagSetting(setting) => joined(
                "VANITY_BENCH_",
                setting.variable_text(),
                " must be 0 or 1",
            ),
            Error::NumberSetting(setting) => {
                let mut text: String = "invalid benchmark ".to_owned();
                text.append(setting.word_text());
                text
            },
            Error::ImpossibleFilter { prefix_tail, suffix_head, overlap } => {
                let mut text: String = "impossible filter: prefix tail ".to_owned();
                text.append(prefix_tail.as_str());
                text.append(" and suffix head ");
                text.append(suffix_head.as_str());
                text.append(" disagree on ");
                text.append(decimal_text(*overlap as u64).as_str());
                text.append(" overlapping digits");
                text
            },
        }
    }
}

}
