//! The settings of the Metal backend, and what they make of a batch.
use crate::chain::chain_count;
use crate::error::Error;
use crate::text::{decimal_text, parse_number, same_text};
use vstd::prelude::*;
use vstd::string::StringExecFns;

verus! {

use crate::chain::chains_for;
use crate::launch::law_chains_cover;
use crate::text::{decimal_chars, number_of};

/// The settings of the Metal backend.
#[derive(Clone, Copy, Debug, PartialEq, Eq)]
pub struct MetalConfig {
    pub bulk: bool,
    pub group: Option<usize>,
    pub square: bool,
    pub fast_add: bool,
    pub invert: bool,
    pub window_bits: u8,
    pub inflight: u8,
    pub chunk: u8,
    pub keccak: bool,
    pub fuse: bool,
    pub stride: u8,
}

/// What is wrong with the settings.
#[derive(Clone, Copy, Debug, PartialEq, Eq, Structural)]
pub enum ConfigFault {
    Window,
    Inflight,
    Chunk,
    ChunkWithInvert,
    FuseWithoutChunk,
    FuseWithInvert,
    Stride,
}

/// The settings that are used where nothing else is asked for.
pub open spec fn default_config() -> MetalConfig {
    MetalConfig {
        bulk: false,
        group: None,
        square: false,
        fast_add: false,
        invert: false,
        window_bits: 16,
        inflight: 2,
        chunk: 8,
        keccak: false,
        fuse: true,
        stride: 32,
    }
}

impl Default for MetalConfig {
    fn default() -> (r: MetalConfig)
        ensures
            r == default_config(),
    {
        MetalConfig {
            bulk: false,
            group: None,
            square: false,
            fast_add: false,
            invert: false,
            window_bits: 16,
            inflight: 2,
            chunk: 8,
            keccak: false,
            fuse: true,
            stride: 32,
        }
    }
}

impl MetalConfig {
    /// Whether the stride fits the kernel: single scalars, or whole chunks of
    /// the fused kernel.
    pub open spec fn stride_fits(self) -> bool {
        self.stride == 1 || ((self.stride == 8 || self.stride == 16 || self.stride == 32
            || self.stride == 64) && self.fuse && self.chunk > 0 && self.stride % self.chunk == 0)
    }

    /// The first thing that is wrong with the settings, if anything.
    pub open spec fn fault(self) -> Option<ConfigFault> {
        if self.window_bits != 4 && self.window_bits != 8 && self.window_bits != 16 {
            Some(ConfigFault::Window)
        } else if self.inflight != 1 && self.inflight != 2 {
            Some(ConfigFault::Inflight)
        } else if self.chunk != 0 && self.chunk != 4 && self.chunk != 8 && self.chunk != 16
            && self.chunk != 32 {
            Some(ConfigFault::Chunk)
        } else if self.chunk != 0 && self.invert {
            Some(ConfigFault::ChunkWithInvert)
        } else if self.fuse && self.chunk == 0 {
            Some(ConfigFault::FuseWithoutChunk)
        } else if self.fuse && self.invert {
            Some(ConfigFault::FuseWithInvert)
        } else if !self.stride_fits() {
            Some(ConfigFault::Stride)
        } else {
            None
        }
    }

    /// What `validate` says of the settings.
    pub open spec fn verdict(self) -> Result<(), Error> {
        match self.fault() {
            None => Ok(()),
            Some(fault) => Err(Error::MetalConfig(fault)),
        }
    }

    /// Checks that the settings go together.
    pub fn validate(&self) -> (r: Result<(), Error>)
        ensures
            r == self.verdict(),
    {
        if self.window_bits != 4 && self.window_bits != 8 && self.window_bits != 16 {
            return Err(Error::MetalConfig(ConfigFault::Window));
        }
        if self.inflight != 1 && self.inflight != 2 {
            return Err(Error::MetalConfig(ConfigFault::Inflight));
        }
        if self.chunk != 0 && self.chunk != 4 && self.chunk != 8 && self.chunk != 16 && self.chunk
            != 32 {
            return Err(Error::MetalConfig(ConfigFault::Chunk));
        }
        if self.chunk != 0 && self.invert {
            return Err(Error::MetalConfig(ConfigFault::ChunkWithInvert));
        }
        if self.fuse && self.chunk == 0 {
            return Err(Error::MetalConfig(ConfigFault::FuseWithoutChunk));
        }
        if self.fuse && self.invert {
            return Err(Error::MetalConfig(ConfigFault::FuseWithInvert));
        }
        let known: bool = self.stride == 8 || self.stride == 16 || self.stride == 32 || self.stride
            == 64;
        if self.stride == 1 || (known && self.fuse && self.chunk > 0 && self.stride % self.chunk
            == 0) {
            Ok(())
        } else {
            Err(Error::MetalConfig(ConfigFault::Stride))
        }
    }

    /// The scalars that one chain start stands for.
    pub open spec fn chain_stride(self) -> nat {
        if self.fuse && self.stride > 1 {
            self.stride as nat
        } else {
            1
        }
    }

    /// The scalars that one chain start stands for.
    pub fn increment_stride(&self) -> (r: usize)
        ensures
            r == self.chain_stride(),
    {
        if self.fuse && self.stride > 1 {
            self.stride as usize
        } else {
            1
        }
    }

    /// Whether points and addresses are computed by kernels of their own.
    pub open spec fn is_split(self) -> bool {
        self.invert || (self.chunk > 0 && !self.fuse)
    }

    /// Whether points and addresses are computed by kernels of their own, so
    /// that a slot needs room for the points between them.
    pub fn split(&self) -> (r: bool)
        ensures
            r == self.is_split(),
    {
        self.invert || (self.chunk > 0 && !self.fuse)
    }
}

/// A setting that can be given as text.
#[derive(Clone, Copy, Debug, PartialEq, Eq, Structural)]
pub enum MetalSetting {
    Bulk,
    Square,
    Add,
    Invert,
    Keccak,
    Fuse,
    Group,
    Window,
    Inflight,
    Chunk,
    Stride,
}

impl MetalSetting {
    /// The end of the variable's name.
    pub open spec fn variable(self) -> Seq<char> {
        match self {
            MetalSetting::Bulk => "BULK"@,
            MetalSetting::Square => "SQUARE"@,
            MetalSetting::Add => "ADD"@,
            MetalSetting::Invert => "INVERT"@,
            MetalSetting::Keccak => "KECCAK"@,
            MetalSetting::Fuse => "FUSE"@,
            MetalSetting::Group => "GROUP"@,
            MetalSetting::Window => "WINDOW"@,
            MetalSetting::Inflight => "INFLIGHT"@,
            MetalSetting::Chunk => "CHUNK"@,
            MetalSetting::Stride => "STRIDE"@,
        }
    }

    /// The setting in words.
    pub open spec fn word(self) -> Seq<char> {
        match self {
            MetalSetting::Bulk => "bulk"@,
            MetalSetting::Square => "square"@,
            MetalSetting::Add => "add"@,
            MetalSetting::Invert => "invert"@,
            MetalSetting::Keccak => "keccak"@,
            MetalSetting::Fuse => "fuse"@,
            MetalSetting::Group => "group"@,
            MetalSetting::Window => "window"@,
            MetalSetting::Inflight => "inflight"@,
            MetalSetting::Chunk => "chunk"@,
            MetalSetting::Stride => "stride"@,
        }
    }

    /// The end of the variable's name.
    pub fn variable_text(self) -> (r: &'static str)
        ensures
            r@ == self.variable(),
    {
        match self {
            MetalSetting::Bulk => "BULK",
            MetalSetting::Square => "SQUARE",
            MetalSetting::Add => "ADD",
            MetalSetting::Invert => "INVERT",
            MetalSetting::Keccak => "KECCAK",
            MetalSetting::Fuse => "FUSE",
            MetalSetting::Group => "GROUP",
            MetalSetting::Window => "WINDOW",
            MetalSetting::Inflight => "INFLIGHT",
            MetalSetting::Chunk => "CHUNK",
            MetalSetting::Stride => "STRIDE",
        }
    }

    /// The setting in words.
    pub fn word_text(self) -> (r: &'static str)
        ensures
            r@ == self.word(),
    {
        match self {
            MetalSetting::Bulk => "bulk",
            MetalSetting::Square => "square",
            MetalSetting::Add => "add",
            MetalSetting::Invert => "invert",
            MetalSetting::Keccak => "keccak",
            MetalSetting::Fuse => "fuse",
            MetalSetting::Group => "group",
            MetalSetting::Window => "window",
            MetalSetting::Inflight => "inflight",
            MetalSetting::Chunk => "chunk",
            MetalSetting::Stride => "stride",
        }
    }
}

/// Settings given as text, each of which may be left out.
pub struct MetalSettings {
    pub bulk: Option<String>,
    pub square: Option<String>,
    pub fast_add: Option<String>,
    pub invert: Option<String>,
    pub keccak: Option<String>,
    pub fuse: Option<String>,
    pub group: Option<String>,
    pub window: Option<String>,
    pub inflight: Option<String>,
    pub chunk: Option<String>,
    pub stride: Option<String>,
}

/// What a flag says: `0`, `1`, or its default where it is left out.
pub open spec fn flag_value(given: Option<String>, otherwise: bool, setting: MetalSetting) -> Result<
    bool,
    Error,
> {
    match given {
        None => Ok(otherwise),
        Some(text) => if text@ == "0"@ {
            Ok(false)
        } else if text@ == "1"@ {
            Ok(true)
        } else {
            Err(Error::FlagSetting(setting))
        },
    }
}

/// What a small number says, or its default where it is left out.
pub open spec fn byte_value(given: Option<String>, otherwise: u8, setting: MetalSetting) -> Result<
    u8,
    Error,
> {
    match given {
        None => Ok(otherwise),
        Some(text) => match number_of(text@, 255) {
            Some(number) => Ok(number as u8),
            None => Err(Error::NumberSetting(setting)),
        },
    }
}

/// What the group size says: `auto`, or a number.
pub open spec fn group_value(given: Option<String>) -> Result<Option<usize>, Error> {
    match given {
        None => Ok(None),
        Some(text) => if text@ == "auto"@ {
            Ok(None)
        } else {
            match number_of(text@, usize::MAX as nat) {
                Some(number) => Ok(Some(number as usize)),
                None => Err(Error::NumberSetting(MetalSetting::Group)),
            }
        },
    }
}

/// What a flag says.
fn read_flag(given: &Option<String>, otherwise: bool, setting: MetalSetting) -> (r: Result<
    bool,
    Error,
>)
    ensures
        r == flag_value(*given, otherwise, setting),
{
    proof {
        reveal_strlit("0");
        reveal_strlit("1");
        assert("0"@[0] != "1"@[0]);
    }
    match given {
        None => Ok(otherwise),
        Some(text) => if same_text(text.as_str(), "0") {
            Ok(false)
        } else if same_text(text.as_str(), "1") {
            Ok(true)
        } else {
            Err(Error::FlagSetting(setting))
        },
    }
}

/// What a small number says.
fn read_byte(given: &Option<String>, otherwise: u8, setting: MetalSetting) -> (r: Result<u8, Error>)
    ensures
        r == byte_value(*given, otherwise, setting),
{
    match given {
        None => Ok(otherwise),
        Some(text) => match parse_number(text.as_str(), 255) {
            Some(number) => Ok(number as u8),
            None => Err(Error::NumberSetting(setting)),
        },
    }
}

/// What the group size says.
fn read_group(given: &Option<String>) -> (r: Result<Option<usize>, Error>)
    ensures
        r == group_value(*given),
{
    match given {
        None => Ok(None),
        Some(text) => if same_text(text.as_str(), "auto") {
            Ok(None)
        } else {
            match parse_number(text.as_str(), usize::MAX as u64) {
                Some(number) => Ok(Some(number as usize)),
                None => Err(Error::NumberSetting(MetalSetting::Group)),
            }
        },
    }
}

/// The settings as they were given, before they are checked together. Turning
/// on threadgroup inversion turns off chunks and fusing where those were left
/// out, and without fused chunks the stride is one.
pub open spec fn given_config(settings: MetalSettings) -> Result<MetalConfig, Error> {
    let base = default_config();
    match (
        flag_value(settings.bulk, base.bulk, MetalSetting::Bulk),
        flag_value(settings.square, base.square, MetalSetting::Square),
        flag_value(settings.fast_add, base.fast_add, MetalSetting::Add),
        flag_value(settings.invert, base.invert, MetalSetting::Invert),
        flag_value(settings.keccak, base.keccak, MetalSetting::Keccak),
        flag_value(settings.fuse, base.fuse, MetalSetting::Fuse),
        group_value(settings.group),
        byte_value(settings.window, base.window_bits, MetalSetting::Window),
        byte_value(settings.inflight, base.inflight, MetalSetting::Inflight),
    ) {
        (Err(e), _, _, _, _, _, _, _, _) => Err(e),
        (_, Err(e), _, _, _, _, _, _, _) => Err(e),
        (_, _, Err(e), _, _, _, _, _, _) => Err(e),
        (_, _, _, Err(e), _, _, _, _, _) => Err(e),
        (_, _, _, _, Err(e), _, _, _, _) => Err(e),
        (_, _, _, _, _, Err(e), _, _, _) => Err(e),
        (_, _, _, _, _, _, Err(e), _, _) => Err(e),
        (_, _, _, _, _, _, _, Err(e), _) => Err(e),
        (_, _, _, _, _, _, _, _, Err(e)) => Err(e),
        (
            Ok(bulk),
            Ok(square),
            Ok(fast_add),
            Ok(invert),
            Ok(keccak),
            Ok(given_fuse),
            Ok(group),
            Ok(window_bits),
            Ok(inflight),
        ) => {
            let chunk_otherwise: u8 = if invert {
                0
            } else {
                base.chunk
            };
            let fuse = if invert && settings.fuse is None {
                false
            } else {
                given_fuse
            };
            match byte_value(settings.chunk, chunk_otherwise, MetalSetting::Chunk) {
                Err(e) => Err(e),
                Ok(chunk) => {
                    let stride_otherwise: u8 = if !fuse || chunk == 0 {
                        1
                    } else {
                        base.stride
                    };
                    match byte_value(settings.stride, stride_otherwise, MetalSetting::Stride) {
                        Err(e) => Err(e),
                        Ok(stride) => Ok(
                            MetalConfig {
                                bulk,
                                group,
                                square,
                                fast_add,
                                invert,
                                window_bits,
                                inflight,
                                chunk,
                                keccak,
                                fuse,
                                stride,
                            },
                        ),
                    }
                },
            }
        },
    }
}

impl MetalConfig {
    /// The settings that were given, checked together.
    pub fn from_settings(settings: &MetalSettings) -> (r: Result<MetalConfig, Error>)
        ensures
            r == (match given_config(*settings) {
                Err(e) => Err(e),
                Ok(config) => match config.verdict() {
                    Err(e) => Err(e),
                    Ok(_) => Ok(config),
                },
            }),
    {
        let bulk: bool = read_flag(&settings.bulk, false, MetalSetting::Bulk)?;
        let square: bool = read_flag(&settings.square, false, MetalSetting::Square)?;
        let fast_add: bool = read_flag(&settings.fast_add, false, MetalSetting::Add)?;
        let invert: bool = read_flag(&settings.invert, false, MetalSetting::Invert)?;
        let keccak: bool = read_flag(&settings.keccak, false, MetalSetting::Keccak)?;
        let given_fuse: bool = read_flag(&settings.fuse, true, MetalSetting::Fuse)?;
        let group: Option<usize> = read_group(&settings.group)?;
        let window_bits: u8 = read_byte(&settings.window, 16, MetalSetting::Window)?;
        let inflight: u8 = read_byte(&settings.inflight, 2, MetalSetting::Inflight)?;
        let chunk_otherwise: u8 = if invert { 0 } else { 8 };
        let chunk: u8 = read_byte(&settings.chunk, chunk_otherwise, MetalSetting::Chunk)?;
        let fuse: bool = if invert && settings.fuse.is_none() { false } else { given_fuse };
        let stride_otherwise: u8 = if !fuse || chunk == 0 { 1 } else { 32 };
        let stride: u8 = read_byte(&settings.stride, stride_otherwise, MetalSetting::Stride)?;
        let config = MetalConfig {
            bulk,
            group,
            square,
            fast_add,
            invert,
            window_bits,
            inflight,
            chunk,
            keccak,
            fuse,
            stride,
        };
        config.validate()?;
        Ok(config)
    }
}

/// The kernels of the shader.
#[derive(Clone, Copy, Debug, PartialEq, Eq, Structural)]
pub enum MetalKernel {
    Derive,
    Jacobian,
    Invert,
    ChunkDerive,
    ChunkInvert,
}

impl MetalKernel {
    /// The kernel's name in the shader.
    pub open spec fn entry_point(self) -> Seq<char> {
        match self {
            MetalKernel::Derive => "derive_addresses"@,
            MetalKernel::Jacobian => "jacobian_points"@,
            MetalKernel::Invert => "invert_affine_keccak"@,
            MetalKernel::ChunkDerive => "chunk_derive_addresses"@,
            MetalKernel::ChunkInvert => "chunk_invert_affine_keccak"@,
        }
    }

    /// The kernel's name in the shader.
    pub fn name(self) -> (r: &'static str)
        ensures
            r@ == self.entry_point(),
    {
        match self {
            MetalKernel::Derive => "derive_addresses",
            MetalKernel::Jacobian => "jacobian_points",
            MetalKernel::Invert => "invert_affine_keccak",
            MetalKernel::ChunkDerive => "chunk_derive_addresses",
            MetalKernel::ChunkInvert => "chunk_invert_affine_keccak",
        }
    }
}

/// What a launch reads or writes.
#[derive(Clone, Copy, Debug, PartialEq, Eq, Structural)]
pub enum SlotBuffer {
    Keys,
    Points,
    Addresses,
}

/// One launch of a batch.
#[derive(Clone, Copy, Debug, PartialEq, Eq)]
pub struct Dispatch {
    pub kernel: MetalKernel,
    pub input: SlotBuffer,
    pub output: SlotBuffer,
    pub threads: usize,
}

impl MetalConfig {
    /// Whether the backend compiles the kernel.
    pub open spec fn compiles(self, kernel: MetalKernel) -> bool {
        match kernel {
            MetalKernel::Derive => true,
            MetalKernel::Jacobian => self.is_split(),
            MetalKernel::Invert => self.invert,
            MetalKernel::ChunkDerive => self.chunk > 0 && self.fuse,
            MetalKernel::ChunkInvert => self.chunk > 0 && !self.fuse,
        }
    }

    /// The kernels to compile.
    pub fn kernels(&self) -> (r: Vec<MetalKernel>)
        ensures
            forall|kernel: MetalKernel| r@.contains(kernel) <==> self.compiles(kernel),
    {
        let mut kernels: Vec<MetalKernel> = Vec::new();
        kernels.push(MetalKernel::Derive);
        let ghost one = kernels@;
        assert(one[0] == MetalKernel::Derive);
        if self.split() {
            kernels.push(MetalKernel::Jacobian);
        }
        let ghost two = kernels@;
        assert(self.is_split() ==> two[1] == MetalKernel::Jacobian);
        if self.invert {
            kernels.push(MetalKernel::Invert);
        }
        let ghost three = kernels@;
        assert(self.invert ==> three[two.len() as int] == MetalKernel::Invert);
        if self.chunk > 0 {
            if self.fuse {
                kernels.push(MetalKernel::ChunkDerive);
            } else {
                kernels.push(MetalKernel::ChunkInvert);
            }
        }
        proof {
            let all = kernels@;
            assert(all[0] == MetalKernel::Derive);
            assert(self.is_split() ==> all[1] == MetalKernel::Jacobian);
            assert(self.invert ==> all[two.len() as int] == MetalKernel::Invert);
            assert(self.chunk > 0 && self.fuse ==> all[three.len() as int]
                == MetalKernel::ChunkDerive);
            assert(self.chunk > 0 && !self.fuse ==> all[three.len() as int]
                == MetalKernel::ChunkInvert);
            assert forall|kernel: MetalKernel| all.contains(kernel) implies self.compiles(
                kernel,
            ) by {
                let i = choose|i: int| 0 <= i < all.len() && all[i] == kernel;
                assert(all[i] == kernel);
            }
        }
        kernels
    }

    /// The scalars that a thread of the fused kernel takes.
    pub open spec fn fused_step(self) -> nat {
        if self.stride > 1 {
            self.stride as nat
        } else {
            self.chunk as nat
        }
    }

    /// The launches that turn the keys of `count` addresses into them.
    pub open spec fn plan(self, count: nat) -> Seq<Dispatch> {
        if self.fuse {
            seq![
                Dispatch {
                    kernel: MetalKernel::ChunkDerive,
                    input: SlotBuffer::Keys,
                    output: SlotBuffer::Addresses,
                    threads: chains_for(count, self.fused_step()) as usize,
                },
            ]
        } else if self.is_split() {
            let points = Dispatch {
                kernel: MetalKernel::Jacobian,
                input: SlotBuffer::Keys,
                output: SlotBuffer::Points,
                threads: count as usize,
            };
            if self.invert {
                seq![
                    points,
                    Dispatch {
                        kernel: MetalKernel::Invert,
                        input: SlotBuffer::Points,
                        output: SlotBuffer::Addresses,
                        threads: count as usize,
                    },
                ]
            } else {
                seq![
                    points,
                    Dispatch {
                        kernel: MetalKernel::ChunkInvert,
                        input: SlotBuffer::Points,
                        output: SlotBuffer::Addresses,
                        threads: chains_for(count, self.chunk as nat) as usize,
                    },
                ]
            }
        } else {
            seq![
                Dispatch {
                    kernel: MetalKernel::Derive,
                    input: SlotBuffer::Keys,
                    output: SlotBuffer::Addresses,
                    threads: count as usize,
                },
            ]
        }
    }

    /// The launches that turn the keys of `count` addresses into them.
    pub fn dispatches(&self, count: usize) -> (r: Vec<Dispatch>)
        ensures
            r@ == self.plan(count as nat),
    {
        let mut plan: Vec<Dispatch> = Vec::new();
        if self.fuse {
            let step: usize = if self.stride > 1 {
                self.stride as usize
            } else {
                self.chunk as usize
            };
            plan.push(
                Dispatch {
                    kernel: MetalKernel::ChunkDerive,
                    input: SlotBuffer::Keys,
                    output: SlotBuffer::Addresses,
                    threads: chain_count(count, step),
                },
            );
        } else if self.split() {
            plan.push(
                Dispatch {
                    kernel: MetalKernel::Jacobian,
                    input: SlotBuffer::Keys,
                    output: SlotBuffer::Points,
                    threads: count,
                },
            );
            if self.invert {
                plan.push(
                    Dispatch {
                        kernel: MetalKernel::Invert,
                        input: SlotBuffer::Points,
                        output: SlotBuffer::Addresses,
                        threads: count,
                    },
                );
            } else {
                plan.push(
                    Dispatch {
                        kernel: MetalKernel::ChunkInvert,
                        input: SlotBuffer::Points,
                        output: SlotBuffer::Addresses,
                        threads: chain_count(count, self.chunk as usize),
                    },
                );
            }
        } else {
            plan.push(
                Dispatch {
                    kernel: MetalKernel::Derive,
                    input: SlotBuffer::Keys,
                    output: SlotBuffer::Addresses,
                    threads: count,
                },
            );
        }
        assert(plan@ =~= self.plan(count as nat));
        plan
    }

    /// With settings that go together, every launch of a batch runs a kernel
    /// that was compiled, on at least one thread and no more than there are
    /// addresses. The first launch reads the keys, each reads what the one
    /// before it wrote, and the last writes the addresses.
    pub proof fn law_plan_can_run(self, count: nat)
        requires
            self.verdict() == Ok::<(), Error>(()),
            0 < count <= usize::MAX,
        ensures
            ({
                let plan = self.plan(count);
                &&& plan.len() > 0
                &&& plan[0].input == SlotBuffer::Keys
                &&& plan.last().output == SlotBuffer::Addresses
                &&& forall|i: int|
                    #![trigger plan[i]]
                    0 <= i < plan.len() ==> self.compiles(plan[i].kernel) && 0 < plan[i].threads
                        <= count
                &&& forall|i: int|
                    #![trigger plan[i]]
                    0 < i < plan.len() ==> plan[i].input == plan[i - 1].output
            }),
    {
        crate::gpu::lemma_no_more_chains_than_addresses(count, self.fused_step());
        crate::gpu::lemma_no_more_chains_than_addresses(count, self.chunk as nat);
        law_chains_cover(count, self.fused_step());
        law_chains_cover(count, self.chunk as nat);
    }
}

/// A line that defines a number for the shader.
pub open spec fn define_line(name: Seq<char>, number: nat) -> Seq<char> {
    "#define "@ + name + " "@ + decimal_chars(number) + "\n"@
}

/// One for what is on, zero for what is off.
pub open spec fn bit(on: bool) -> nat {
    if on {
        1
    } else {
        0
    }
}

/// The lines before the shader that tell it the settings.
pub open spec fn prologue(config: MetalConfig) -> Seq<char> {
    define_line("OPT_SQUARE"@, bit(config.square)) + define_line("OPT_ADD"@, bit(config.fast_add))
        + define_line("OPT_INVERT"@, bit(config.invert)) + define_line(
        "WINDOW_BITS"@,
        config.window_bits as nat,
    ) + define_line("CHUNK_SIZE"@, config.chunk as nat) + define_line(
        "OPT_KECCAK"@,
        bit(config.keccak),
    ) + define_line("INCREMENT_STRIDE"@, config.stride as nat)
}

/// Adds a line that defines a number for the shader.
fn append_define(text: &mut String, name: &str, number: u64)
    ensures
        final(text)@ == old(text)@ + define_line(name@, number as nat),
{
    text.append("#define ");
    text.append(name);
    text.append(" ");
    text.append(decimal_text(number).as_str());
    text.append("\n");
    assert(text@ =~= old(text)@ + define_line(name@, number as nat));
}

/// The shader with the lines before it that tell it the settings.
pub fn shader_source(config: &MetalConfig, shader: &str) -> (r: String)
    ensures
        r@ == prologue(*config) + shader@,
{
    let mut text: String = String::new();
    append_define(&mut text, "OPT_SQUARE", if config.square { 1 } else { 0 });
    append_define(&mut text, "OPT_ADD", if config.fast_add { 1 } else { 0 });
    append_define(&mut text, "OPT_INVERT", if config.invert { 1 } else { 0 });
    append_define(&mut text, "WINDOW_BITS", config.window_bits as u64);
    append_define(&mut text, "CHUNK_SIZE", config.chunk as u64);
    append_define(&mut text, "OPT_KECCAK", if config.keccak { 1 } else { 0 });
    append_define(&mut text, "INCREMENT_STRIDE", config.stride as u64);
    assert(text@ =~= prologue(*config));
    text.append(shader);
    text
}

}
