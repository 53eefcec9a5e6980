//! Which device is used, and in what groups it works.
use crate::backend::{resolve, select, BackendChoice, GpuBackend, Resolved, Selection};
use crate::device::{
    compute_queue_family, memory_type_index, pick_cuda_device, pick_vulkan_device, CudaDevice,
    VulkanDevice, VulkanKind,
};
use crate::error::Error;
use crate::launch::{check_tuned_kernel, check_tuning_group, dispatch_group, group_count};
use crate::ring::{GpuApi, SlotRing};
use vstd::arithmetic::div_mod::lemma_fundamental_div_mod;
use vstd::arithmetic::power2::lemma2_to64;
use vstd::prelude::*;

verus! {

use crate::backend::open_outcome;
use crate::device::{has_bits, memory_type_fits, COMPUTE_QUEUE};
use crate::laws::keys::scalars_per_chain;
use crate::launch::{default_group, law_groups_cover};
use vstd::arithmetic::power2::pow2;

/// Whether a CUDA device runs the kernels: it says what it is, and is of the
/// sixth generation at least.
pub open spec fn cuda_runs(device: CudaDevice) -> bool {
    device.capability is Some && device.integrated is Some && (device.capability->0).0 >= 6
}

/// A CUDA device is picked where any can run, and it can run.
pub proof fn law_cuda_device_is_picked(devices: &[CudaDevice], r: Option<usize>, j: int)
    requires
        call_ensures(pick_cuda_device, (devices,), r),
        0 <= j < devices@.len(),
        cuda_runs(devices@[j]),
    ensures
        r is Some,
        r->0 < devices@.len(),
        cuda_runs(devices@[r->0 as int]),
        ({
            let picked = devices@[r->0 as int];
            let other = devices@[j];
            let own = picked.integrated == Some(0i32);
            let (major, minor) = picked.capability->0;
            let (other_major, other_minor) = other.capability->0;
            &&& other.integrated == Some(0i32) ==> own
            &&& own == (other.integrated == Some(0i32)) ==> major >= other_major && (major
                == other_major ==> minor >= other_minor)
            &&& own == (other.integrated == Some(0i32)) && (major, minor) == (
                other_major,
                other_minor,
            ) ==> r->0 <= j
        }),
{
    assert(devices@[j].usable());
    assert(devices@[r->0 as int].usable());
}

/// Where no CUDA device can run, none is picked; what is picked can run.
pub proof fn law_no_cuda_device_is_made_up(devices: &[CudaDevice], r: Option<usize>)
    requires
        call_ensures(pick_cuda_device, (devices,), r),
    ensures
        r matches Some(i) ==> i < devices@.len() && cuda_runs(devices@[i as int]),
        r is None ==> forall|j: int| 0 <= j < devices@.len() ==> !cuda_runs(#[trigger] devices@[j]),
{
    if r is None {
        assert forall|j: int| 0 <= j < devices@.len() implies !cuda_runs(
            #[trigger] devices@[j],
        ) by {
            assert(!devices@[j].usable());
        }
    }
}

/// Whether a Vulkan device runs the kernels over a table of so many bytes.
pub open spec fn vulkan_runs(device: VulkanDevice, table_bytes: u32) -> bool {
    &&& device.kind == VulkanKind::Discrete || device.kind == VulkanKind::Integrated
    &&& device.shader_int64
    &&& table_bytes <= device.max_storage_buffer_range
    &&& 64 <= device.max_work_group_size
    &&& 64 <= device.max_work_group_invocations
    &&& 4 <= device.max_push_constants_size
    &&& device.compute_queue_family is Some
}

/// Of the Vulkan devices that can run, one of the favoured vendor is picked
/// before any other, then a card of its own before an integrated one, then the
/// first.
pub proof fn law_vulkan_device_is_picked(
    devices: &[VulkanDevice],
    table_bytes: u32,
    r: Option<usize>,
    j: int,
)
    requires
        call_ensures(pick_vulkan_device, (devices, table_bytes), r),
        0 <= j < devices@.len(),
        vulkan_runs(devices@[j], table_bytes),
    ensures
        r is Some,
        r->0 < devices@.len(),
        vulkan_runs(devices@[r->0 as int], table_bytes),
        ({
            let picked = devices@[r->0 as int];
            let other = devices@[j];
            let amd = picked.vendor_id == 0x1002;
            let other_amd = other.vendor_id == 0x1002;
            &&& other_amd ==> amd
            &&& amd == other_amd && other.kind == VulkanKind::Discrete ==> picked.kind
                == VulkanKind::Discrete
            &&& amd == other_amd && picked.kind == other.kind ==> r->0 <= j
        }),
{
    assert(devices@[j].usable(table_bytes));
    assert(devices@[r->0 as int].usable(table_bytes));
}

/// Where no Vulkan device can run, none is picked.
pub proof fn law_no_vulkan_device_is_made_up(
    devices: &[VulkanDevice],
    table_bytes: u32,
    r: Option<usize>,
)
    requires
        call_ensures(pick_vulkan_device, (devices, table_bytes), r),
    ensures
        r matches Some(i) ==> i < devices@.len() && vulkan_runs(devices@[i as int], table_bytes),
        r is None ==> forall|j: int|
            0 <= j < devices@.len() ==> !vulkan_runs(#[trigger] devices@[j], table_bytes),
{
    if r is None {
        assert forall|j: int| 0 <= j < devices@.len() implies !vulkan_runs(
            #[trigger] devices@[j],
            table_bytes,
        ) by {
            assert(!devices@[j].usable(table_bytes));
        }
    }
}

/// The queue family is the first whose second flag is set.
pub proof fn law_first_compute_queue(flags: &[u32], r: Option<usize>, j: usize)
    requires
        call_ensures(compute_queue_family, (flags,), r),
        j < flags@.len(),
    ensures
        (flags@[j as int] / 2) % 2 == 1 ==> r is Some && r->0 <= j,
        r == Some(j) ==> (flags@[j as int] / 2) % 2 == 1,
{
    let f = flags@[j as int];
    assert(f & 2 == 2 <==> (f / 2) % 2 == 1) by (bit_vector);
    assert(has_bits(f, COMPUTE_QUEUE) <==> f & 2 == 2);
}

/// The memory type is the first that is allowed and has all of the properties.
pub proof fn law_first_memory_type(
    properties: &[u32],
    allowed: u32,
    required: u32,
    r: Option<u32>,
    j: u32,
)
    requires
        call_ensures(memory_type_index, (properties, allowed, required), r),
        j < properties@.len() <= 32,
    ensures
        (allowed >> j) & 1 == 1 && !properties@[j as int] & required == 0 ==> r is Some && r->0
            <= j,
        r == Some(j) ==> (allowed >> j) & 1 == 1 && !properties@[j as int] & required == 0,
{
    let p = properties@[j as int];
    assert(p & required == required <==> !p & required == 0) by (bit_vector);
    assert(allowed & (1u32 << j) != 0 <==> (allowed >> j) & 1 == 1) by (bit_vector)
        requires
            j < 32,
    ;
    let at = j as int;
    assert(at as u32 == j);
    assert(memory_type_fits(properties@, allowed, required, at) <==> (allowed & (1u32 << j) != 0
        && p & required == required));
}

/// So many groups give every address a thread, and no smaller number does.
pub proof fn law_groups_are_least(
    count: usize,
    per_thread: usize,
    group: usize,
    r: usize,
    enough: nat,
)
    requires
        call_ensures(group_count, (count, per_thread, group), r),
    ensures
        r * scalars_per_chain(group) * scalars_per_chain(per_thread) >= count,
        enough * scalars_per_chain(group) * scalars_per_chain(per_thread) >= count && count > 0
            ==> enough >= r,
{
    law_groups_cover(count as nat, per_thread as nat, group as nat);
    let g = scalars_per_chain(group);
    let p = scalars_per_chain(per_thread);
    if enough < r && count > 0 {
        assert(enough * g * p <= (r - 1) * g * p) by (nonlinear_arith)
            requires
                enough <= r - 1,
                g > 0,
                p > 0,
        ;
    }
}

/// A group may be asked for when it is 32 threads, or that doubled up to three
/// times.
pub proof fn law_tuning_groups(group: Option<usize>, r: Result<(), Error>)
    requires
        call_ensures(check_tuning_group, (group,), r),
    ensures
        group is None ==> r is Ok,
        group is Some ==> (r is Ok <==> exists|k: nat|
            k <= 3 && group->0 == 32 * #[trigger] pow2(k)),
{
    lemma2_to64();
    if let Some(size) = group {
        if r is Ok {
            let k: nat = if size == 32 {
                0
            } else if size == 64 {
                1
            } else if size == 128 {
                2
            } else {
                3
            };
            assert(size == 32 * pow2(k));
        }
        if exists|k: nat| k <= 3 && size == 32 * #[trigger] pow2(k) {
            let k = choose|k: nat| k <= 3 && size == 32 * #[trigger] pow2(k);
            assert(k == 0 || k == 1 || k == 2 || k == 3);
        }
    }
}

/// A kernel takes a group when the group is some whole number of execution
/// widths, and no larger than the kernel allows.
pub proof fn law_tuned_kernel_takes_whole_widths(
    size: usize,
    width: usize,
    max_threads: usize,
    r: Result<(), Error>,
    widths: nat,
)
    requires
        call_ensures(check_tuned_kernel, (Some(size), width, max_threads), r),
    ensures
        width > 0 && size == widths * width && size <= max_threads ==> r is Ok,
        r is Ok ==> width > 0 && size <= max_threads && exists|n: int| size == #[trigger] (n
            * width),
{
    if width > 0 {
        lemma_fundamental_div_mod(size as int, width as int);
        if size == widths * width {
            vstd::arithmetic::div_mod::lemma_mod_multiples_basic(widths as int, width as int);
        }
        if size as int % width as int == 0 {
            let n = size as int / width as int;
            assert(size == n * width) by (nonlinear_arith)
                requires
                    size == width as int * n,
            ;
        }
    }
}

/// Where no group is asked for, the launch takes as many whole execution widths
/// as fit in the kernel's limit and in the larger of 128 threads and one width.
pub proof fn law_launch_takes_the_most_widths(
    width: usize,
    max_threads: usize,
    r: Result<usize, Error>,
    widths: nat,
)
    requires
        call_ensures(dispatch_group, (None::<usize>, width, max_threads), r),
    ensures
        width == 0 || max_threads < width ==> r == Err::<usize, Error>(Error::InvalidThreadLimits),
        0 < width <= max_threads ==> match r {
            Ok(size) => {
                &&& 0 < size <= max_threads
                &&& size <= 128 || size == width
                &&& size <= 256
                &&& exists|n: int| size == #[trigger] (n * width)
                &&& widths * width <= max_threads && (widths * width <= 128 || widths == 1)
                    ==> widths * width <= size
            },
            Err(e) => width > 256 && e == Error::InvalidDispatchGroup,
        },
{
    if 0 < width <= max_threads {
        let wanted: int = if width > 128 {
            width as int
        } else {
            128
        };
        let most = if wanted < max_threads {
            wanted
        } else {
            max_threads as int
        };
        let w = width as int;
        let n = most / w;
        lemma_fundamental_div_mod(most, w);
        assert(n * w <= most && n >= 1 && most < (n + 1) * w) by (nonlinear_arith)
            requires
                most == w * n + most % w,
                0 <= most % w < w,
                most >= w,
                w > 0,
        ;
        vstd::arithmetic::div_mod::lemma_mod_multiples_basic(n, w);
        assert(n * w >= w) by (nonlinear_arith)
            requires
                n >= 1,
                w > 0,
        ;
        if widths * width <= max_threads && (widths * width <= 128 || widths == 1) {
            assert(widths * width <= most);
            assert(widths <= n) by (nonlinear_arith)
                requires
                    widths * w < (n + 1) * w,
                    w > 0,
            ;
            assert(widths * w <= n * w) by (nonlinear_arith)
                requires
                    widths <= n,
                    w > 0,
            ;
        }
        if width > 128 {
            assert(n == 1) by (nonlinear_arith)
                requires
                    n * w <= most,
                    most <= w,
                    n >= 1,
                    w > 0,
            ;
        }
        assert(default_group(width as nat, max_threads as nat) == n * w);
    }
}

/// Where a group is asked for, the launch takes it or refuses it.
pub proof fn law_launch_takes_the_group(
    size: usize,
    width: usize,
    max_threads: usize,
    r: Result<usize, Error>,
)
    requires
        call_ensures(dispatch_group, (Some(size), width, max_threads), r),
    ensures
        r matches Ok(taken) ==> taken == size,
        r is Ok <==> 0 < width <= max_threads && 0 < size <= max_threads && size <= 256 && size
            % width == 0,
        r == Err::<usize, Error>(Error::InvalidThreadLimits) <==> width == 0 || max_threads < width,
{
}

/// A batch goes to a free slot, behind those in flight; it is refused only for
/// its size or for want of a slot.
pub proof fn law_slot_is_handed_out(
    ring: SlotRing,
    api: GpuApi,
    count: usize,
    capacity: usize,
    r: Result<Option<usize>, Error>,
    after: SlotRing,
)
    requires
        ring.wf(),
        call_ensures(SlotRing::next_free, (&ring, api, count, capacity), r),
        call_ensures(SlotRing::submitted, (ring,), after),
    ensures
        r matches Ok(Some(slot)) ==> after@ == ring@.push(slot as int) && !ring@.contains(
            slot as int,
        ) && slot < ring.slots(),
        r is Ok && count > 0 ==> r->Ok_0 is Some,
        r is Ok <==> count <= capacity && ring@.len() < ring.slots(),
        r is Ok && count == 0 ==> r->Ok_0 is None,
        after.slots() == ring.slots(),
{
    ring.law_slots_are_distinct();
}

/// Batches are collected in the order in which they were submitted.
pub proof fn law_oldest_is_collected(
    ring: SlotRing,
    api: GpuApi,
    r: Result<usize, Error>,
    after: SlotRing,
)
    requires
        call_ensures(SlotRing::oldest, (&ring, api), r),
        call_ensures(SlotRing::collected, (ring,), after),
    ensures
        ring@.len() > 0 ==> r is Ok && ring@ == seq![r->Ok_0 as int] + after@,
        ring@.len() == 0 ==> r == Err::<usize, Error>(Error::NothingInFlight(api)),
        after.slots() == ring.slots(),
{
    if ring@.len() > 0 {
        assert(ring@ =~= seq![r->Ok_0 as int] + after@);
    }
}

/// A device that was named is used or refused: nothing stands in for it, and
/// the CPU that was named needs no device.
pub proof fn law_named_device_has_no_substitute(
    choice: BackendChoice,
    metal: bool,
    cuda: bool,
    vulkan: bool,
    r: Result<Resolved, Error>,
)
    requires
        call_ensures(resolve, (choice, metal, cuda, vulkan), r),
    ensures
        choice is Metal ==> r == (if metal {
            Ok::<Resolved, Error>(Resolved::Metal)
        } else {
            Err(Error::MetalUnavailable)
        }),
        choice is Cuda ==> r == (if cuda {
            Ok::<Resolved, Error>(Resolved::Cuda)
        } else {
            Err(Error::CudaUnavailable)
        }),
        choice is Vulkan ==> r == (if vulkan {
            Ok::<Resolved, Error>(Resolved::Vulkan)
        } else {
            Err(Error::VulkanUnavailable)
        }),
        choice is Cpu ==> r == Ok::<Resolved, Error>(Resolved::Cpu { fallback: false }),
{
}

/// An open choice is never refused. It settles on a device that is present where
/// there is one, Metal before CUDA before Vulkan, and falls back to the CPU only
/// where there is none.
pub proof fn law_open_choice_takes_what_is_there(
    metal: bool,
    cuda: bool,
    vulkan: bool,
    r: Result<Resolved, Error>,
)
    requires
        call_ensures(resolve, (BackendChoice::Auto, metal, cuda, vulkan), r),
    ensures
        r is Ok,
        metal <==> r->Ok_0 is Metal,
        r->Ok_0 is Cuda ==> cuda,
        cuda ==> r->Ok_0 is Metal || r->Ok_0 is Cuda,
        r->Ok_0 is Vulkan ==> vulkan,
        r->Ok_0 is Cpu <==> !metal && !cuda && !vulkan,
        r->Ok_0 is Cpu ==> r->Ok_0 == (Resolved::Cpu { fallback: true }),
{
}

/// What is opened for a named choice is of the kind that was named, and an error
/// is that of its driver or says that it is not there.
pub proof fn law_named_device_is_opened<M, C, V, FM, FC, FV>(
    choice: BackendChoice,
    capacity: usize,
    metal: FM,
    cuda: FC,
    vulkan: FV,
    r: Result<Selection<M, C, V>, Error>,
) where
    FM: FnOnce(usize) -> Result<Option<M>, Error>,
    FC: FnOnce(usize) -> Result<Option<C>, Error>,
    FV: FnOnce(usize) -> Result<Option<V>, Error>,

    requires
        call_ensures(
            select::<M, C, V, FM, FC, FV>,
            (choice, capacity, metal, cuda, vulkan),
            r,
        ),
    ensures
        choice is Cpu ==> (r matches Ok(Selection::Cpu { fallback }) && !fallback),
        choice is Metal ==> match r {
            Ok(Selection::Gpu(backend)) => *backend matches GpuBackend::Metal(opened)
                && metal.ensures((capacity,), Ok(Some(opened))),
            Ok(_) => false,
            Err(e) => metal.ensures((capacity,), Err(e)) || (e == Error::MetalUnavailable
                && metal.ensures((capacity,), Ok(None))),
        },
        choice is Cuda ==> match r {
            Ok(Selection::Gpu(backend)) => *backend matches GpuBackend::Cuda(opened)
                && cuda.ensures((capacity,), Ok(Some(*opened))),
            Ok(_) => false,
            Err(e) => cuda.ensures((capacity,), Err(e)) || (e == Error::CudaUnavailable
                && cuda.ensures((capacity,), Ok(None))),
        },
        choice is Vulkan ==> match r {
            Ok(Selection::Gpu(backend)) => *backend matches GpuBackend::Vulkan(opened)
                && vulkan.ensures((capacity,), Ok(Some(*opened))),
            Ok(_) => false,
            Err(e) => vulkan.ensures((capacity,), Err(e)) || (e == Error::VulkanUnavailable
                && vulkan.ensures((capacity,), Ok(None))),
        },
{
}

/// What is opened for an open choice is the first of Metal, CUDA and Vulkan that
/// is there. The CPU stands in only where all three said that they are not, and
/// a driver that fails is never passed over.
pub proof fn law_open_choice_passes_no_device_over<M, C, V, FM, FC, FV>(
    capacity: usize,
    metal: FM,
    cuda: FC,
    vulkan: FV,
    r: Result<Selection<M, C, V>, Error>,
) where
    FM: FnOnce(usize) -> Result<Option<M>, Error>,
    FC: FnOnce(usize) -> Result<Option<C>, Error>,
    FV: FnOnce(usize) -> Result<Option<V>, Error>,

    requires
        call_ensures(
            select::<M, C, V, FM, FC, FV>,
            (BackendChoice::Auto, capacity, metal, cuda, vulkan),
            r,
        ),
    ensures
        match r {
            Ok(Selection::Cpu { fallback }) => fallback && metal.ensures((capacity,), Ok(None))
                && cuda.ensures((capacity,), Ok(None)) && vulkan.ensures((capacity,), Ok(None)),
            Ok(Selection::Gpu(backend)) => match *backend {
                GpuBackend::Metal(opened) => metal.ensures((capacity,), Ok(Some(opened))),
                GpuBackend::Cuda(opened) => metal.ensures((capacity,), Ok(None)) && cuda.ensures(
                    (capacity,),
                    Ok(Some(*opened)),
                ),
                GpuBackend::Vulkan(opened) => metal.ensures((capacity,), Ok(None))
                    && cuda.ensures((capacity,), Ok(None)) && vulkan.ensures(
                    (capacity,),
                    Ok(Some(*opened)),
                ),
            },
            Err(e) => metal.ensures((capacity,), Err(e)) || (metal.ensures((capacity,), Ok(None))
                && (cuda.ensures((capacity,), Err(e)) || (cuda.ensures((capacity,), Ok(None))
                && vulkan.ensures((capacity,), Err(e))))),
        },
{
    let (m, c, v) = choose|
        m: Result<Option<M>, Error>,
        c: Result<Option<C>, Error>,
        v: Result<Option<V>, Error>,
    | #[trigger]
        open_outcome(m, c, v) == r && metal.ensures((capacity,), m) && (m == Ok::<
            Option<M>,
            Error,
        >(None) ==> cuda.ensures((capacity,), c)) && (m == Ok::<Option<M>, Error>(None) && c
            == Ok::<Option<C>, Error>(None) ==> vulkan.ensures((capacity,), v));
    assert(open_outcome(m, c, v) == r);
}

/// A backend goes by the name of its kind, in small letters.
pub proof fn law_kinds_are_named<M, C, V>(backend: &GpuBackend<M, C, V>, r: &'static str)
    requires
        call_ensures(GpuBackend::<M, C, V>::kind_name, (backend,), r),
    ensures
        backend is Metal <==> r@ == seq!['m', 'e', 't', 'a', 'l'],
        backend is Cuda <==> r@ == seq!['c', 'u', 'd', 'a'],
        backend is Vulkan <==> r@ == seq!['v', 'u', 'l', 'k', 'a', 'n'],
{
    reveal_strlit("metal");
    reveal_strlit("cuda");
    reveal_strlit("vulkan");
    match backend {
        GpuBackend::Metal(_) => {
            assert(r@ =~= seq!['m', 'e', 't', 'a', 'l']);
        },
        GpuBackend::Cuda(_) => {
            assert(r@ =~= seq!['c', 'u', 'd', 'a']);
            assert(r@.len() == 4);
        },
        GpuBackend::Vulkan(_) => {
            assert(r@ =~= seq!['v', 'u', 'l', 'k', 'a', 'n']);
            assert(r@.len() == 6);
        },
    }
}

}
