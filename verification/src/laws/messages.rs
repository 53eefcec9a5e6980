//! What errors say.
use crate::error::Error;
use crate::metal::MetalSetting;
use crate::ring::GpuApi;
use vstd::prelude::*;

verus! {

use crate::laws::counting::{decimal, lemma_decimal_chars};
use crate::laws::digits::number_in;
use crate::text::decimal_chars;

/// The name of an interface.
pub open spec fn interface(api: GpuApi) -> Seq<char> {
    match api {
        GpuApi::Cuda => "CUDA"@,
        GpuApi::Metal => "Metal"@,
        GpuApi::Vulkan => "Vulkan"@,
    }
}

/// A filter that cannot be met is explained by the end of the prefix, the
/// beginning of the suffix and the number of digits that both cover, in this
/// order.
pub proof fn law_conflict_is_explained(
    prefix_tail: String,
    suffix_head: String,
    overlap: usize,
    r: String,
)
    requires
        call_ensures(
            Error::message,
            (&Error::ImpossibleFilter { prefix_tail, suffix_head, overlap },),
            r,
        ),
    ensures
        exists|count: Seq<char>, digits: Seq<u8>| #[trigger]
            decimal(count, digits) && number_in(10, digits) == overlap && r@
                == "impossible filter: prefix tail "@ + prefix_tail@ + " and suffix head "@
                + suffix_head@ + " disagree on "@ + count + " overlapping digits"@,
{
    let digits = lemma_decimal_chars(overlap as nat);
    assert(decimal(decimal_chars(overlap as nat), digits));
}

/// A fault of a device is told with the name of its interface.
pub proof fn law_interface_is_named(
    api: GpuApi,
    exceeded: String,
    exhausted: String,
    nothing: String,
    mismatch: String,
    capacity: String,
)
    requires
        call_ensures(Error::message, (&Error::BatchExceedsCapacity(api),), exceeded),
        call_ensures(Error::message, (&Error::SlotsExhausted(api),), exhausted),
        call_ensures(Error::message, (&Error::NothingInFlight(api),), nothing),
        call_ensures(Error::message, (&Error::InFlightCountMismatch(api),), mismatch),
        call_ensures(Error::message, (&Error::InvalidCapacity(api),), capacity),
    ensures
        exceeded@ == "batch exceeds "@ + interface(api) + " capacity"@,
        exhausted@ == interface(api) + " in-flight slots exhausted"@,
        nothing@ == "no in-flight "@ + interface(api) + " batch to collect"@,
        mismatch@ == "address count differs from the in-flight "@ + interface(api) + " batch"@,
        capacity@ == "invalid "@ + interface(api) + " batch capacity"@,
{
}

/// A setting that is refused is told by its name, and a failure elsewhere in its
/// own words.
pub proof fn law_setting_is_named(
    setting: MetalSetting,
    variable: &'static str,
    word: &'static str,
    flag: String,
    number: String,
    text: String,
    reported: String,
)
    requires
        call_ensures(MetalSetting::variable_text, (setting,), variable),
        call_ensures(MetalSetting::word_text, (setting,), word),
        call_ensures(Error::message, (&Error::FlagSetting(setting),), flag),
        call_ensures(Error::message, (&Error::NumberSetting(setting),), number),
        call_ensures(Error::message, (&Error::Reported(text),), reported),
    ensures
        flag@ == "VANITY_BENCH_"@ + variable@ + " must be 0 or 1"@,
        number@ == "invalid benchmark "@ + word@,
        reported@ == text@,
{
}

}
