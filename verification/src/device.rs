//! Choosing among the devices that a driver lists.
use vstd::prelude::*;

verus! {

/// What a CUDA driver says of one device. A part that it would not say is
/// missing.
#[derive(Clone, Copy, Debug, PartialEq, Eq)]
pub struct CudaDevice {
    pub capability: Option<(i32, i32)>,
    pub integrated: Option<i32>,
}

impl CudaDevice {
    /// Whether the device can run the kernels.
    pub open spec fn usable(self) -> bool {
        &&& self.capability matches Some((major, _)) && major >= 6
        &&& self.integrated is Some
    }

    /// Whether the device is a card of its own.
    pub open spec fn discrete(self) -> bool {
        self.integrated == Some(0i32)
    }

    /// Whether this device is preferred: a card of its own before an
    /// integrated one, then the higher compute capability.
    pub open spec fn preferred_to(self, other: CudaDevice) -> bool {
        let (major, minor) = self.capability->0;
        let (other_major, other_minor) = other.capability->0;
        if self.discrete() != other.discrete() {
            self.discrete()
        } else if major != other_major {
            major > other_major
        } else {
            minor > other_minor
        }
    }
}

/// Whether `picked` is the first of the most preferred usable devices before
/// `end`.
pub open spec fn is_cuda_pick(devices: Seq<CudaDevice>, end: int, picked: Option<usize>) -> bool {
    match picked {
        None => forall|j: int| 0 <= j < end ==> !(#[trigger] devices[j]).usable(),
        Some(i) => {
            &&& i < end
            &&& devices[i as int].usable()
            &&& forall|j: int|
                0 <= j < end && (#[trigger] devices[j]).usable() ==> !devices[j].preferred_to(
                    devices[i as int],
                )
            &&& forall|j: int|
                0 <= j < i && (#[trigger] devices[j]).usable() ==> devices[i as int].preferred_to(
                    devices[j],
                )
        },
    }
}

/// The most preferred usable device, and the first of several.
pub fn pick_cuda_device(devices: &[CudaDevice]) -> (r: Option<usize>)
    ensures
        is_cuda_pick(devices@, devices@.len() as int, r),
{
    let mut best: Option<usize> = None;
    let mut i: usize = 0;
    while i < devices.len()
        invariant
            i <= devices@.len(),
            is_cuda_pick(devices@, i as int, best),
        decreases devices@.len() - i,
    {
        let device: &CudaDevice = &devices[i];
        if let (Some((major, minor)), Some(integrated)) = (device.capability, device.integrated) {
            if major >= 6 {
                let better: bool = match best {
                    None => true,
                    Some(held) => {
                        let other: &CudaDevice = &devices[held];
                        match (other.capability, other.integrated) {
                            (Some((other_major, other_minor)), Some(other_integrated)) => {
                                let discrete: bool = integrated == 0;
                                let other_discrete: bool = other_integrated == 0;
                                if discrete != other_discrete {
                                    discrete
                                } else if major != other_major {
                                    major > other_major
                                } else {
                                    minor > other_minor
                                }
                            },
                            _ => true,
                        }
                    },
                };
                if better {
                    best = Some(i);
                }
            }
        }
        i += 1;
    }
    best
}

/// The kind of a Vulkan device.
#[derive(Clone, Copy, Debug, PartialEq, Eq, Structural)]
pub enum VulkanKind {
    Discrete,
    Integrated,
    Other,
}

/// What a Vulkan driver says of one device.
#[derive(Clone, Copy, Debug, PartialEq, Eq)]
pub struct VulkanDevice {
    pub kind: VulkanKind,
    pub vendor_id: u32,
    pub shader_int64: bool,
    pub max_storage_buffer_range: u32,
    pub max_work_group_size: u32,
    pub max_work_group_invocations: u32,
    pub max_push_constants_size: u32,
    pub compute_queue_family: Option<u32>,
}

/// The vendor whose devices come first.
pub const AMD_VENDOR_ID: u32 = 0x1002;

/// The threads of a workgroup that a device must take.
pub const REQUIRED_WORKGROUP: u32 = 64;

impl VulkanDevice {
    /// Whether the device can run the kernels over a table of `table_bytes`.
    pub open spec fn usable(self, table_bytes: u32) -> bool {
        &&& self.kind != VulkanKind::Other
        &&& self.shader_int64
        &&& self.max_storage_buffer_range >= table_bytes
        &&& self.max_work_group_size >= REQUIRED_WORKGROUP
        &&& self.max_work_group_invocations >= REQUIRED_WORKGROUP
        &&& self.max_push_constants_size >= 4
        &&& self.compute_queue_family is Some
    }

    /// Whether this device is preferred: the favoured vendor first, then a card
    /// of its own.
    pub open spec fn preferred_to(self, other: VulkanDevice) -> bool {
        let amd = self.vendor_id == AMD_VENDOR_ID;
        let other_amd = other.vendor_id == AMD_VENDOR_ID;
        if amd != other_amd {
            amd
        } else {
            self.kind == VulkanKind::Discrete && other.kind != VulkanKind::Discrete
        }
    }

    /// Whether the device can run the kernels over a table of `table_bytes`.
    fn can_run(&self, table_bytes: u32) -> (r: bool)
        ensures
            r == self.usable(table_bytes),
    {
        self.kind != VulkanKind::Other && self.shader_int64 && self.max_storage_buffer_range
            >= table_bytes && self.max_work_group_size >= REQUIRED_WORKGROUP
            && self.max_work_group_invocations >= REQUIRED_WORKGROUP
            && self.max_push_constants_size >= 4 && self.compute_queue_family.is_some()
    }

    /// Whether this device is preferred to `other`.
    fn comes_before(&self, other: &VulkanDevice) -> (r: bool)
        ensures
            r == self.preferred_to(*other),
    {
        let amd: bool = self.vendor_id == AMD_VENDOR_ID;
        let other_amd: bool = other.vendor_id == AMD_VENDOR_ID;
        if amd != other_amd {
            amd
        } else {
            self.kind == VulkanKind::Discrete && other.kind != VulkanKind::Discrete
        }
    }
}

/// Whether `picked` is the first of the most preferred usable devices before
/// `end`.
pub open spec fn is_vulkan_pick(
    devices: Seq<VulkanDevice>,
    table_bytes: u32,
    end: int,
    picked: Option<usize>,
) -> bool {
    match picked {
        None => forall|j: int| 0 <= j < end ==> !(#[trigger] devices[j]).usable(table_bytes),
        Some(i) => {
            &&& i < end
            &&& devices[i as int].usable(table_bytes)
            &&& forall|j: int|
                0 <= j < end && (#[trigger] devices[j]).usable(table_bytes)
                    ==> !devices[j].preferred_to(devices[i as int])
            &&& forall|j: int|
                0 <= j < i && (#[trigger] devices[j]).usable(table_bytes)
                    ==> devices[i as int].preferred_to(devices[j])
        },
    }
}

/// The most preferred usable device, and the first of several.
pub fn pick_vulkan_device(devices: &[VulkanDevice], table_bytes: u32) -> (r: Option<usize>)
    ensures
        is_vulkan_pick(devices@, table_bytes, devices@.len() as int, r),
{
    let mut best: Option<usize> = None;
    let mut i: usize = 0;
    while i < devices.len()
        invariant
            i <= devices@.len(),
            is_vulkan_pick(devices@, table_bytes, i as int, best),
        decreases devices@.len() - i,
    {
        if devices[i].can_run(table_bytes) {
            let better: bool = match best {
                None => true,
                Some(held) => devices[i].comes_before(&devices[held]),
            };
            if better {
                best = Some(i);
            }
        }
        i += 1;
    }
    best
}

/// Whether all bits of `required` are set.
pub open spec fn has_bits(flags: u32, required: u32) -> bool {
    flags & required == required
}

/// The flag of queues that run compute work.
pub const COMPUTE_QUEUE: u32 = 0x2;

/// Whether `picked` is the first queue family that runs compute work.
pub open spec fn is_queue_pick(queue_flags: Seq<u32>, picked: Option<usize>) -> bool {
    match picked {
        None => forall|j: int|
            0 <= j < queue_flags.len() ==> !has_bits(#[trigger] queue_flags[j], COMPUTE_QUEUE),
        Some(i) => i < queue_flags.len() && has_bits(queue_flags[i as int], COMPUTE_QUEUE)
            && forall|j: int|
            0 <= j < i ==> !has_bits(#[trigger] queue_flags[j], COMPUTE_QUEUE),
    }
}

/// The first queue family that runs compute work.
pub fn compute_queue_family(queue_flags: &[u32]) -> (r: Option<usize>)
    ensures
        is_queue_pick(queue_flags@, r),
{
    let mut i: usize = 0;
    while i < queue_flags.len()
        invariant
            i <= queue_flags@.len(),
            forall|j: int|
                0 <= j < i ==> !has_bits(#[trigger] queue_flags@[j], COMPUTE_QUEUE),
        decreases queue_flags@.len() - i,
    {
        if queue_flags[i] & COMPUTE_QUEUE == COMPUTE_QUEUE {
            return Some(i);
        }
        i += 1;
    }
    None
}

/// Whether memory type `index` is among `type_bits` and has the properties.
pub open spec fn memory_type_fits(
    property_flags: Seq<u32>,
    type_bits: u32,
    required: u32,
    index: int,
) -> bool {
    type_bits & (1u32 << index as u32) != 0 && has_bits(property_flags[index], required)
}

/// Whether `picked` is the first memory type that is allowed and has the
/// properties.
pub open spec fn is_memory_pick(
    property_flags: Seq<u32>,
    type_bits: u32,
    required: u32,
    picked: Option<u32>,
) -> bool {
    match picked {
        None => forall|j: int|
            0 <= j < property_flags.len() ==> !#[trigger] memory_type_fits(
                property_flags,
                type_bits,
                required,
                j,
            ),
        Some(i) => i < property_flags.len() && memory_type_fits(
            property_flags,
            type_bits,
            required,
            i as int,
        ) && forall|j: int|
            0 <= j < i ==> !#[trigger] memory_type_fits(property_flags, type_bits, required, j),
    }
}

/// The first memory type that is allowed and has the properties. There are at
/// most 32 types.
pub fn memory_type_index(property_flags: &[u32], type_bits: u32, required: u32) -> (r: Option<
    u32,
>)
    requires
        property_flags@.len() <= 32,
    ensures
        is_memory_pick(property_flags@, type_bits, required, r),
{
    let mut i: u32 = 0;
    let count: usize = property_flags.len();
    while (i as usize) < count
        invariant
            i <= count,
            count == property_flags@.len(),
            count <= 32,
            forall|j: int|
                0 <= j < i ==> !#[trigger] memory_type_fits(
                    property_flags@,
                    type_bits,
                    required,
                    j,
                ),
        decreases count - i,
    {
        if type_bits & (1u32 << i) != 0 && property_flags[i as usize] & required == required {
            assert(memory_type_fits(property_flags@, type_bits, required, i as int));
            return Some(i);
        }
        assert(!memory_type_fits(property_flags@, type_bits, required, i as int));
        i += 1;
    }
    None
}

}
