//! The settings of the Metal backend, and what the shader is told and made to do.
use crate::error::Error;
use crate::metal::{
    shader_source, ConfigFault, Dispatch, MetalConfig, MetalKernel, MetalSetting, MetalSettings,
    SlotBuffer,
};
use vstd::prelude::*;

verus! {

use crate::chain::{chain_len, chains_for};
use crate::gpu::lemma_no_more_chains_than_addresses;
use crate::launch::law_chains_cover;
use crate::laws::counting::{decimal, lemma_decimal_chars};
use crate::laws::digits::number_in;
use crate::metal::define_line;
use crate::text::{decimal_chars, number_of};

/// Whether `value` is one of these powers of two, from `low` on, doubled up to
/// `times` times.
pub open spec fn doubled(value: u8, low: int, times: int) -> bool {
    ||| value == low
    ||| times > 0 && value == 2 * low
    ||| times > 1 && value == 4 * low
    ||| times > 2 && value == 8 * low
}

/// Whether chunks are of a size that there is.
pub open spec fn chunk_known(config: MetalConfig) -> bool {
    config.chunk == 0 || doubled(config.chunk, 4, 3)
}

/// Whether the window is one of those that there are tables for.
pub open spec fn window_known(config: MetalConfig) -> bool {
    config.window_bits == 4 || config.window_bits == 8 || config.window_bits == 16
}

/// Whether a chain is one scalar, or whole chunks of the fused kernel.
pub open spec fn stride_known(config: MetalConfig) -> bool {
    config.stride == 1 || (doubled(config.stride, 8, 3) && config.fuse && config.chunk > 0
        && exists|chunks: int| config.stride == #[trigger] (chunks * config.chunk))
}

/// Settings are accepted exactly when each is known, inverting goes without
/// chunks and without fusing, fusing goes with chunks, and the chains are of whole
/// chunks.
pub proof fn law_settings_go_together(config: &MetalConfig, r: Result<(), Error>)
    requires
        call_ensures(MetalConfig::validate, (config,), r),
    ensures
        r is Ok <==> {
            &&& window_known(*config)
            &&& 1 <= config.inflight <= 2
            &&& chunk_known(*config)
            &&& config.invert ==> config.chunk == 0 && !config.fuse
            &&& config.fuse ==> config.chunk > 0
            &&& stride_known(*config)
        },
        r == Err::<(), Error>(Error::MetalConfig(ConfigFault::Window)) <==> !window_known(*config),
        r == Err::<(), Error>(Error::MetalConfig(ConfigFault::Inflight)) ==> config.inflight == 0
            || config.inflight > 2,
        r == Err::<(), Error>(Error::MetalConfig(ConfigFault::Chunk)) ==> !chunk_known(*config),
        r == Err::<(), Error>(Error::MetalConfig(ConfigFault::ChunkWithInvert)) ==> config.chunk
            > 0 && config.invert,
        r == Err::<(), Error>(Error::MetalConfig(ConfigFault::FuseWithoutChunk)) ==> config.fuse
            && config.chunk == 0,
        r == Err::<(), Error>(Error::MetalConfig(ConfigFault::FuseWithInvert)) ==> config.fuse
            && config.invert,
        r == Err::<(), Error>(Error::MetalConfig(ConfigFault::Stride)) ==> !stride_known(*config),
        r matches Err(e) ==> e is MetalConfig,
{
    let stride = config.stride as int;
    let chunk = config.chunk as int;
    if chunk > 0 {
        vstd::arithmetic::div_mod::lemma_fundamental_div_mod(stride, chunk);
        if stride % chunk == 0 {
            let chunks = stride / chunk;
            assert(stride == chunks * chunk) by (nonlinear_arith)
                requires
                    stride == chunk * chunks,
            ;
            assert(config.stride == chunks * config.chunk);
        }
        if exists|chunks: int| config.stride == #[trigger] (chunks * config.chunk) {
            let chunks = choose|chunks: int| config.stride == #[trigger] (chunks * config.chunk);
            vstd::arithmetic::div_mod::lemma_mod_multiples_basic(chunks, chunk);
        }
    }
}

/// The settings used where nothing is asked for are accepted.
pub proof fn law_default_settings_are_accepted(config: MetalConfig, r: Result<(), Error>)
    requires
        call_ensures(MetalConfig::default, (), config),
        call_ensures(MetalConfig::validate, (&config,), r),
    ensures
        r is Ok,
        config.fuse && !config.invert && !config.bulk && !config.square && !config.fast_add
            && !config.keccak,
        config.group is None,
        config.window_bits == 16 && config.inflight == 2 && config.chunk == 8 && config.stride
            == 32,
{
}

/// Whether a flag has the value that its text gives it, or its default.
pub open spec fn flag_taken(text: Option<String>, otherwise: bool, value: bool) -> bool {
    match text {
        None => value == otherwise,
        Some(t) => t@ == (if value {
            seq!['1']
        } else {
            seq!['0']
        }),
    }
}

/// Whether a small number has the value that its text gives it, or its default.
pub open spec fn number_taken(text: Option<String>, otherwise: int, value: u8) -> bool {
    match text {
        None => value == otherwise,
        Some(t) => number_of(t@, 255) == Some(value as nat),
    }
}

/// Settings given as text are taken one by one, those left out as they are by
/// default, and what comes of it is accepted. Where only inverting is asked for,
/// chunks and fusing are off; where chunks are not fused, a chain is one scalar.
pub proof fn law_given_settings_are_taken(
    settings: &MetalSettings,
    r: Result<MetalConfig, Error>,
    checked: Result<(), Error>,
)
    requires
        call_ensures(MetalConfig::from_settings, (settings,), r),
        r matches Ok(config) ==> call_ensures(MetalConfig::validate, (&config,), checked),
    ensures
        r matches Ok(config) ==> {
            &&& checked is Ok
            &&& flag_taken(settings.bulk, false, config.bulk)
            &&& flag_taken(settings.square, false, config.square)
            &&& flag_taken(settings.fast_add, false, config.fast_add)
            &&& flag_taken(settings.invert, false, config.invert)
            &&& flag_taken(settings.keccak, false, config.keccak)
            &&& flag_taken(settings.fuse, !config.invert, config.fuse)
            &&& number_taken(settings.window, 16, config.window_bits)
            &&& number_taken(settings.inflight, 2, config.inflight)
            &&& number_taken(
                settings.chunk,
                if config.invert {
                    0
                } else {
                    8
                },
                config.chunk,
            )
            &&& number_taken(
                settings.stride,
                if config.fuse && config.chunk > 0 {
                    32
                } else {
                    1
                },
                config.stride,
            )
            &&& settings.group is None ==> config.group is None
            &&& settings.group matches Some(t) ==> if t@ == "auto"@ {
                config.group is None
            } else {
                config.group is Some && number_of(t@, usize::MAX as nat) == Some(
                    config.group->0 as nat,
                )
            }
        },
{
    reveal_strlit("0");
    reveal_strlit("1");
    if let Ok(config) = r {
        assert("0"@ =~= seq!['0']);
        assert("1"@ =~= seq!['1']);
    }
}

/// Settings that say nothing are the default ones.
pub proof fn law_nothing_given_is_the_default(
    settings: &MetalSettings,
    r: Result<MetalConfig, Error>,
    config: MetalConfig,
)
    requires
        call_ensures(MetalConfig::from_settings, (settings,), r),
        call_ensures(MetalConfig::default, (), config),
        settings.bulk is None,
        settings.square is None,
        settings.fast_add is None,
        settings.invert is None,
        settings.keccak is None,
        settings.fuse is None,
        settings.group is None,
        settings.window is None,
        settings.inflight is None,
        settings.chunk is None,
        settings.stride is None,
    ensures
        r == Ok::<MetalConfig, Error>(config),
{
}

/// The text that is given for a flag.
pub open spec fn flag_given(settings: MetalSettings, setting: MetalSetting) -> Option<String> {
    match setting {
        MetalSetting::Bulk => settings.bulk,
        MetalSetting::Square => settings.square,
        MetalSetting::Add => settings.fast_add,
        MetalSetting::Invert => settings.invert,
        MetalSetting::Keccak => settings.keccak,
        MetalSetting::Fuse => settings.fuse,
        _ => None,
    }
}

/// The text that is given for a number.
pub open spec fn number_given(settings: MetalSettings, setting: MetalSetting) -> Option<String> {
    match setting {
        MetalSetting::Group => settings.group,
        MetalSetting::Window => settings.window,
        MetalSetting::Inflight => settings.inflight,
        MetalSetting::Chunk => settings.chunk,
        MetalSetting::Stride => settings.stride,
        _ => None,
    }
}

/// A setting that is refused was given, and its text says nothing that can be
/// taken; settings that are refused together are those that do not go together.
pub proof fn law_refused_setting_is_named(settings: &MetalSettings, e: Error)
    requires
        call_ensures(MetalConfig::from_settings, (settings,), Err::<MetalConfig, Error>(e)),
    ensures
        match e {
            Error::FlagSetting(setting) => match flag_given(*settings, setting) {
                Some(t) => t@ != seq!['0'] && t@ != seq!['1'],
                None => false,
            },
            Error::NumberSetting(setting) => match number_given(*settings, setting) {
                Some(t) => if setting == MetalSetting::Group {
                    t@ != "auto"@ && number_of(t@, usize::MAX as nat) is None
                } else {
                    number_of(t@, 255) is None
                },
                None => false,
            },
            Error::MetalConfig(_) => true,
            _ => false,
        },
{
    reveal_strlit("0");
    reveal_strlit("1");
    assert("0"@ =~= seq!['0']);
    assert("1"@ =~= seq!['1']);
}

/// The scalars that a chain start stands for are those of the stride where they
/// are fused, and one otherwise.
pub proof fn law_chain_stride(config: &MetalConfig, r: usize)
    requires
        call_ensures(MetalConfig::increment_stride, (config,), r),
        config.stride > 0,
    ensures
        config.fuse ==> r == config.stride,
        !config.fuse ==> r == 1,
{
}

/// How many addresses a thread of the kernel takes.
pub open spec fn thread_share(config: MetalConfig, kernel: MetalKernel) -> int {
    match kernel {
        MetalKernel::ChunkDerive => if config.stride > 1 {
            config.stride as int
        } else {
            config.chunk as int
        },
        MetalKernel::ChunkInvert => config.chunk as int,
        _ => 1,
    }
}

/// Every launch of a batch gives each address a thread, and has none to spare.
pub proof fn law_launches_cover_the_batch(
    config: &MetalConfig,
    checked: Result<(), Error>,
    count: usize,
    plan: Vec<Dispatch>,
    i: int,
)
    requires
        call_ensures(MetalConfig::validate, (config,), checked),
        checked is Ok,
        call_ensures(MetalConfig::dispatches, (config, count), plan),
        count > 0,
        0 <= i < plan@.len(),
    ensures
        plan@[i].threads * thread_share(*config, plan@[i].kernel) >= count,
        (plan@[i].threads - 1) * thread_share(*config, plan@[i].kernel) < count,
{
    let fused = config.fused_step();
    let chunk = config.chunk as nat;
    lemma_no_more_chains_than_addresses(count as nat, fused);
    lemma_no_more_chains_than_addresses(count as nat, chunk);
    law_chains_cover(count as nat, fused);
    law_chains_cover(count as nat, chunk);
    assert(config.verdict() is Ok);
    let share = thread_share(*config, plan@[i].kernel);
    let threads = plan@[i].threads as int;
    if config.fuse {
        assert(share == chain_len(fused) && threads == chains_for(count as nat, fused));
    } else if config.invert || config.chunk == 0 {
        assert(share == 1 && threads == count);
    } else if i == 0 {
        assert(share == 1 && threads == count);
    } else {
        assert(share == chain_len(chunk) && threads == chains_for(count as nat, chunk));
    }
}

/// The launches go from the keys to the addresses, through the points where the
/// kernels are split.
pub proof fn law_launches_lead_to_addresses(
    config: &MetalConfig,
    checked: Result<(), Error>,
    count: usize,
    plan: Vec<Dispatch>,
    split: bool,
)
    requires
        call_ensures(MetalConfig::validate, (config,), checked),
        checked is Ok,
        call_ensures(MetalConfig::dispatches, (config, count), plan),
        call_ensures(MetalConfig::split, (config,), split),
    ensures
        split <==> !config.fuse && (config.invert || config.chunk > 0),
        plan@.len() == (if split {
            2int
        } else {
            1
        }),
        plan@[0].input == SlotBuffer::Keys,
        plan@.last().output == SlotBuffer::Addresses,
        split ==> plan@[0].output == SlotBuffer::Points && plan@[1].input == SlotBuffer::Points,
        split ==> plan@[0].kernel == MetalKernel::Jacobian,
        config.invert ==> plan@.last().kernel == MetalKernel::Invert,
        config.fuse ==> plan@[0].kernel == MetalKernel::ChunkDerive,
        !config.fuse && config.chunk > 0 ==> plan@.last().kernel == MetalKernel::ChunkInvert,
        !config.fuse && config.chunk == 0 && !config.invert ==> plan@[0].kernel
            == MetalKernel::Derive,
{
    assert(config.verdict() is Ok);
}

/// Every kernel that a batch launches is compiled.
pub proof fn law_launched_kernels_are_compiled(
    config: &MetalConfig,
    checked: Result<(), Error>,
    count: usize,
    plan: Vec<Dispatch>,
    kernels: Vec<MetalKernel>,
    i: int,
)
    requires
        call_ensures(MetalConfig::validate, (config,), checked),
        checked is Ok,
        call_ensures(MetalConfig::dispatches, (config, count), plan),
        call_ensures(MetalConfig::kernels, (config,), kernels),
        0 <= i < plan@.len(),
    ensures
        kernels@.contains(plan@[i].kernel),
{
    assert(config.verdict() is Ok);
    assert(config.compiles(plan@[i].kernel));
}

/// The name of a setting is its word in capitals.
pub proof fn law_variable_is_the_word(
    setting: MetalSetting,
    variable: &'static str,
    word: &'static str,
    i: int,
)
    requires
        call_ensures(MetalSetting::variable_text, (setting,), variable),
        call_ensures(MetalSetting::word_text, (setting,), word),
        0 <= i < word@.len(),
    ensures
        variable@.len() == word@.len(),
        'a' <= word@[i] <= 'z',
        'A' <= variable@[i] <= 'Z',
        word@[i] as int - 'a' as int == variable@[i] as int - 'A' as int,
{
    lemma_words();
    match setting {
        MetalSetting::Bulk => {},
        MetalSetting::Square => {},
        MetalSetting::Add => {},
        MetalSetting::Invert => {},
        MetalSetting::Keccak => {},
        MetalSetting::Fuse => {},
        MetalSetting::Group => {},
        MetalSetting::Window => {},
        MetalSetting::Inflight => {},
        MetalSetting::Chunk => {},
        MetalSetting::Stride => {},
    }
}

/// The letters of the words.
proof fn lemma_words()
    ensures
        "BULK"@ == seq!['B', 'U', 'L', 'K'],
        "SQUARE"@ == seq!['S', 'Q', 'U', 'A', 'R', 'E'],
        "ADD"@ == seq!['A', 'D', 'D'],
        "INVERT"@ == seq!['I', 'N', 'V', 'E', 'R', 'T'],
        "KECCAK"@ == seq!['K', 'E', 'C', 'C', 'A', 'K'],
        "FUSE"@ == seq!['F', 'U', 'S', 'E'],
        "GROUP"@ == seq!['G', 'R', 'O', 'U', 'P'],
        "WINDOW"@ == seq!['W', 'I', 'N', 'D', 'O', 'W'],
        "INFLIGHT"@ == seq!['I', 'N', 'F', 'L', 'I', 'G', 'H', 'T'],
        "CHUNK"@ == seq!['C', 'H', 'U', 'N', 'K'],
        "STRIDE"@ == seq!['S', 'T', 'R', 'I', 'D', 'E'],
        "bulk"@ == seq!['b', 'u', 'l', 'k'],
        "square"@ == seq!['s', 'q', 'u', 'a', 'r', 'e'],
        "add"@ == seq!['a', 'd', 'd'],
        "invert"@ == seq!['i', 'n', 'v', 'e', 'r', 't'],
        "keccak"@ == seq!['k', 'e', 'c', 'c', 'a', 'k'],
        "fuse"@ == seq!['f', 'u', 's', 'e'],
        "group"@ == seq!['g', 'r', 'o', 'u', 'p'],
        "window"@ == seq!['w', 'i', 'n', 'd', 'o', 'w'],
        "inflight"@ == seq!['i', 'n', 'f', 'l', 'i', 'g', 'h', 't'],
        "chunk"@ == seq!['c', 'h', 'u', 'n', 'k'],
        "stride"@ == seq!['s', 't', 'r', 'i', 'd', 'e'],
{
    reveal_strlit("BULK");
    reveal_strlit("SQUARE");
    reveal_strlit("ADD");
    reveal_strlit("INVERT");
    reveal_strlit("KECCAK");
    reveal_strlit("FUSE");
    reveal_strlit("GROUP");
    reveal_strlit("WINDOW");
    reveal_strlit("INFLIGHT");
    reveal_strlit("CHUNK");
    reveal_strlit("STRIDE");
    reveal_strlit("bulk");
    reveal_strlit("square");
    reveal_strlit("add");
    reveal_strlit("invert");
    reveal_strlit("keccak");
    reveal_strlit("fuse");
    reveal_strlit("group");
    reveal_strlit("window");
    reveal_strlit("inflight");
    reveal_strlit("chunk");
    reveal_strlit("stride");
}

/// Two settings with the same name are the same.
pub proof fn law_names_tell_settings_apart(
    a: MetalSetting,
    b: MetalSetting,
    x: &'static str,
    y: &'static str,
)
    requires
        call_ensures(MetalSetting::variable_text, (a,), x),
        call_ensures(MetalSetting::variable_text, (b,), y),
        x@ == y@,
    ensures
        a == b,
{
    lemma_words();
    assert(x@.len() == y@.len() && x@[0] == y@[0] && x@[1] == y@[1]);
}

/// One for what is on, zero for what is off.
pub open spec fn one_if(on: bool) -> nat {
    if on {
        1
    } else {
        0
    }
}

/// Whether a line defines this name as this number.
pub open spec fn told(name: Seq<char>, number: nat, line: Seq<char>) -> bool {
    exists|text: Seq<char>, digits: Seq<u8>| #[trigger]
        decimal(text, digits) && number_in(10, digits) == number && line == "#define "@ + name
            + " "@ + text + "\n"@
}

/// Whether these are the lines that tell the settings.
pub open spec fn tell(lines: Seq<Seq<char>>, config: MetalConfig) -> bool {
    &&& lines.len() == 7
    &&& told("OPT_SQUARE"@, one_if(config.square), lines[0])
    &&& told("OPT_ADD"@, one_if(config.fast_add), lines[1])
    &&& told("OPT_INVERT"@, one_if(config.invert), lines[2])
    &&& told("WINDOW_BITS"@, config.window_bits as nat, lines[3])
    &&& told("CHUNK_SIZE"@, config.chunk as nat, lines[4])
    &&& told("OPT_KECCAK"@, one_if(config.keccak), lines[5])
    &&& told("INCREMENT_STRIDE"@, config.stride as nat, lines[6])
}

/// A defining line tells its number.
proof fn lemma_told(name: Seq<char>, number: nat)
    ensures
        told(name, number, define_line(name, number)),
{
    let digits = lemma_decimal_chars(number);
    assert(decimal(decimal_chars(number), digits));
}

/// The shader is told of squaring, adding, inverting, the window, the chunks,
/// Keccak and the stride, a line for each; one stands for what is on and zero for
/// what is off. The shader itself follows unchanged.
pub proof fn law_shader_is_told_the_settings(config: &MetalConfig, shader: &str, r: String)
    requires
        call_ensures(shader_source, (config, shader), r),
    ensures
        exists|lines: Seq<Seq<char>>| #[trigger]
            tell(lines, *config) && r@ == lines[0] + lines[1] + lines[2] + lines[3] + lines[4]
                + lines[5] + lines[6] + shader@,
{
    let lines = seq![
        define_line("OPT_SQUARE"@, one_if(config.square)),
        define_line("OPT_ADD"@, one_if(config.fast_add)),
        define_line("OPT_INVERT"@, one_if(config.invert)),
        define_line("WINDOW_BITS"@, config.window_bits as nat),
        define_line("CHUNK_SIZE"@, config.chunk as nat),
        define_line("OPT_KECCAK"@, one_if(config.keccak)),
        define_line("INCREMENT_STRIDE"@, config.stride as nat),
    ];
    lemma_told("OPT_SQUARE"@, one_if(config.square));
    lemma_told("OPT_ADD"@, one_if(config.fast_add));
    lemma_told("OPT_INVERT"@, one_if(config.invert));
    lemma_told("WINDOW_BITS"@, config.window_bits as nat);
    lemma_told("CHUNK_SIZE"@, config.chunk as nat);
    lemma_told("OPT_KECCAK"@, one_if(config.keccak));
    lemma_told("INCREMENT_STRIDE"@, config.stride as nat);
    assert(tell(lines, *config));
    assert(r@ =~= lines[0] + lines[1] + lines[2] + lines[3] + lines[4] + lines[5] + lines[6]
        + shader@);
}

}
