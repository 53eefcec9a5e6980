//! What computes addresses: the backend interface, the CPU reference backend,
//! and the choice among the devices that are present.
use crate::address::{derive_address, verify_address, Address};
use crate::chain::chain_starts;
use crate::error::Error;
use crate::scalar::{curve_order_bytes, increment_secret_key, SecretKey};
use crate::text::parse_number;
use vstd::prelude::*;

verus! {

use crate::address::address_of;
use crate::text::number_of;
use crate::chain::{chain_len, chains_for, start_accepted};
use crate::scalar::{
    be_value, curve_order, is_scalar, lemma_be_value_update, lemma_be_value_zeros, pow256,
};

/// The largest number of addresses in one batch.
pub const MAX_GPU_BATCH_SIZE: u32 = 262_144;

/// The number of addresses per GPU batch unless the caller asks for another.
pub const DEFAULT_GPU_BATCH_SIZE: u32 = 262_144;

/// The chain length of GPU batches unless a backend says otherwise.
pub const DEFAULT_INCREMENT_STRIDE: u32 = 32;

/// Whether `addresses` are the addresses of `keys`, one for one.
pub open spec fn addresses_of_keys(keys: Seq<SecretKey>, addresses: Seq<Address>) -> bool {
    &&& keys.len() == addresses.len()
    &&& forall|i: int| 0 <= i < keys.len() ==> (#[trigger] addresses[i])@ == address_of(keys[i]@)
}

/// A batch is either fully derived or rejected. No output may be used on error.
/// Implementations own their compute resources, never search state or files.
///
/// `keys` are chain starts, not one scalar per address: address `j` belongs to
/// `keys[j / stride] + j % stride`, and there is one start per chain. With
/// stride 1 the two views coincide.
pub trait AddressBackend: Sized {
    /// Whether the search must confirm each candidate on the CPU. Only the CPU
    /// reference implementation opts out, and it owes exact addresses for it.
    const VERIFY_CANDIDATES: bool = true;

    /// Whether deriving `count` addresses from `keys` can lead from `before` to
    /// `after`, and give these addresses and this result. A backend that says
    /// nothing of itself may give any.
    open spec fn derives(
        before: Self,
        keys: Seq<SecretKey>,
        count: nat,
        after: Self,
        addresses: Seq<Address>,
        r: Result<(), Error>,
    ) -> bool {
        true
    }

    /// Whether submitting `count` addresses from `keys` can lead from `before` to
    /// `after` and give this result. A backend that says nothing of itself may
    /// give any.
    open spec fn begins(
        before: Self,
        keys: Seq<SecretKey>,
        count: nat,
        after: Self,
        r: Result<(), Error>,
    ) -> bool {
        true
    }

    /// Whether collecting `count` addresses of `keys` can lead from `before` to
    /// `after`, and give these addresses and this result. A backend that says
    /// nothing of itself may give any.
    open spec fn ends(
        before: Self,
        keys: Seq<SecretKey>,
        count: nat,
        after: Self,
        addresses: Seq<Address>,
        r: Result<(), Error>,
    ) -> bool {
        true
    }

    /// Derives one address per slot of `addresses`.
    fn derive_batch(&mut self, keys: &[SecretKey], addresses: &mut [Address]) -> (r: Result<
        (),
        Error,
    >)
        ensures
            Self::derives(
                *old(self),
                keys@,
                old(addresses)@.len(),
                *final(self),
                final(addresses)@,
                r,
            ),
            final(addresses)@.len() == old(addresses)@.len(),
            !Self::VERIFY_CANDIDATES && r is Ok ==> addresses_of_keys(keys@, final(addresses)@),
    ;

    /// How many submitted batches the backend can hold at once.
    fn inflight_capacity(&self) -> (r: usize)
        default_ensures
            r == 1,
    {
        1
    }

    /// Consecutive scalars per chain start. `1` keeps independent keys and one
    /// scalar multiplication per address.
    fn increment_stride(&self) -> (r: usize)
        default_ensures
            r == 1,
    {
        1
    }

    /// Submits `count` addresses from the chain starts in `keys` without waiting.
    /// A backend that takes one batch at a time refuses with `BeginUnsupported`.
    fn begin_batch(&mut self, keys: &[SecretKey], count: usize) -> (r: Result<(), Error>)
        ensures
            Self::begins(*old(self), keys@, count as nat, *final(self), r),
    ;

    /// Waits for the oldest submitted batch and hands out its addresses. A
    /// backend that takes one batch at a time derives it.
    fn end_batch(&mut self, keys: &[SecretKey], addresses: &mut [Address]) -> (r: Result<
        (),
        Error,
    >)
        ensures
            final(addresses)@.len() == old(addresses)@.len(),
            !Self::VERIFY_CANDIDATES && r is Ok ==> addresses_of_keys(keys@, final(addresses)@),
            Self::ends(
                *old(self),
                keys@,
                old(addresses)@.len(),
                *final(self),
                final(addresses)@,
                r,
            ),
    ;
}

/// The reference backend: one scalar multiplication per address.
pub struct CpuBackend;

impl CpuBackend {
    /// A backend ready for use.
    pub fn new() -> (r: CpuBackend) {
        CpuBackend
    }
}

impl AddressBackend for CpuBackend {
    const VERIFY_CANDIDATES: bool = false;

    /// Batches are not submitted ahead.
    open spec fn begins(
        before: CpuBackend,
        keys: Seq<SecretKey>,
        count: nat,
        after: CpuBackend,
        r: Result<(), Error>,
    ) -> bool {
        after == before && r == Err::<(), Error>(Error::BeginUnsupported)
    }

    /// A batch is ended by deriving it.
    open spec fn ends(
        before: CpuBackend,
        keys: Seq<SecretKey>,
        count: nat,
        after: CpuBackend,
        addresses: Seq<Address>,
        r: Result<(), Error>,
    ) -> bool {
        Self::derives(before, keys, count, after, addresses, r)
    }

    /// The addresses of the keys, where there is one key for each.
    open spec fn derives(
        before: CpuBackend,
        keys: Seq<SecretKey>,
        count: nat,
        after: CpuBackend,
        addresses: Seq<Address>,
        r: Result<(), Error>,
    ) -> bool {
        if keys.len() == count {
            r is Ok && addresses_of_keys(keys, addresses)
        } else {
            r == Err::<(), Error>(Error::BatchLengths)
        }
    }

    fn derive_batch(&mut self, keys: &[SecretKey], addresses: &mut [Address]) -> (r: Result<
        (),
        Error,
    >)
        ensures
            r is Ok <==> keys@.len() == old(addresses)@.len(),
            r matches Err(e) ==> e == Error::BatchLengths && final(addresses)@ == old(addresses)@,
            r is Ok ==> addresses_of_keys(keys@, final(addresses)@),
    {
        let count: usize = addresses.len();
        if keys.len() != count {
            return Err(Error::BatchLengths);
        }
        let mut i: usize = 0;
        while i < count
            invariant
                i <= count,
                count == keys@.len(),
                count == addresses@.len(),
                forall|k: int|
                    0 <= k < i ==> (#[trigger] addresses@[k])@ == address_of(keys@[k]@),
            decreases count - i,
        {
            addresses[i] = derive_address(&keys[i]);
            i += 1;
        }
        Ok(())
    }

    fn begin_batch(&mut self, keys: &[SecretKey], count: usize) -> (r: Result<(), Error>)
        ensures
            r == Err::<(), Error>(Error::BeginUnsupported),
    {
        Err(Error::BeginUnsupported)
    }

    fn end_batch(&mut self, keys: &[SecretKey], addresses: &mut [Address]) -> (r: Result<
        (),
        Error,
    >)
        ensures
            r is Ok <==> keys@.len() == old(addresses)@.len(),
            r matches Err(e) ==> e == Error::BatchLengths && final(addresses)@ == old(addresses)@,
            r is Ok ==> addresses_of_keys(keys@, final(addresses)@),
    {
        self.derive_batch(keys, addresses)
    }
}

/// Which backend the user asked for.
#[derive(Clone, Copy, Debug, PartialEq, Eq, Structural)]
pub enum BackendChoice {
    Auto,
    Cpu,
    Metal,
    Cuda,
    Vulkan,
}

/// A device that can say what it is.
pub trait NamedDevice {
    /// The name that the driver gives the device.
    fn device_name(&self) -> String;
}

/// A GPU backend of one of the three kinds.
pub enum GpuBackend<M, C, V> {
    Metal(M),
    Cuda(Box<C>),
    Vulkan(Box<V>),
}

impl<M, C, V> GpuBackend<M, C, V> {
    /// The name of the kind.
    pub open spec fn kind(&self) -> Seq<char> {
        match self {
            GpuBackend::Metal(_) => "metal"@,
            GpuBackend::Cuda(_) => "cuda"@,
            GpuBackend::Vulkan(_) => "vulkan"@,
        }
    }

    /// The lower-case name of the backend's kind.
    pub fn kind_name(&self) -> (r: &'static str)
        ensures
            r@ == self.kind(),
    {
        match self {
            GpuBackend::Metal(_) => "metal",
            GpuBackend::Cuda(_) => "cuda",
            GpuBackend::Vulkan(_) => "vulkan",
        }
    }
}

impl<M: NamedDevice, C: NamedDevice, V: NamedDevice> GpuBackend<M, C, V> {
    /// The name that the chosen device gives itself.
    pub fn device_name(&self) -> (r: String)
        ensures
            match self {
                GpuBackend::Metal(device) => call_ensures(M::device_name, (device,), r),
                GpuBackend::Cuda(device) => call_ensures(C::device_name, (&**device,), r),
                GpuBackend::Vulkan(device) => call_ensures(V::device_name, (&**device,), r),
            },
    {
        match self {
            GpuBackend::Metal(device) => device.device_name(),
            GpuBackend::Cuda(device) => (**device).device_name(),
            GpuBackend::Vulkan(device) => (**device).device_name(),
        }
    }
}

impl<M: AddressBackend, C: AddressBackend, V: AddressBackend> AddressBackend for GpuBackend<
    M,
    C,
    V,
> {
    const VERIFY_CANDIDATES: bool = true;

    /// What the chosen backend does.
    open spec fn derives(
        before: GpuBackend<M, C, V>,
        keys: Seq<SecretKey>,
        count: nat,
        after: GpuBackend<M, C, V>,
        addresses: Seq<Address>,
        r: Result<(), Error>,
    ) -> bool {
        match (before, after) {
            (GpuBackend::Metal(b), GpuBackend::Metal(a)) => M::derives(
                b,
                keys,
                count,
                a,
                addresses,
                r,
            ),
            (GpuBackend::Cuda(b), GpuBackend::Cuda(a)) => C::derives(
                *b,
                keys,
                count,
                *a,
                addresses,
                r,
            ),
            (GpuBackend::Vulkan(b), GpuBackend::Vulkan(a)) => V::derives(
                *b,
                keys,
                count,
                *a,
                addresses,
                r,
            ),
            _ => false,
        }
    }

    /// What the chosen backend does.
    open spec fn begins(
        before: GpuBackend<M, C, V>,
        keys: Seq<SecretKey>,
        count: nat,
        after: GpuBackend<M, C, V>,
        r: Result<(), Error>,
    ) -> bool {
        match (before, after) {
            (GpuBackend::Metal(b), GpuBackend::Metal(a)) => M::begins(b, keys, count, a, r),
            (GpuBackend::Cuda(b), GpuBackend::Cuda(a)) => C::begins(*b, keys, count, *a, r),
            (GpuBackend::Vulkan(b), GpuBackend::Vulkan(a)) => V::begins(*b, keys, count, *a, r),
            _ => false,
        }
    }

    /// What the chosen backend does.
    open spec fn ends(
        before: GpuBackend<M, C, V>,
        keys: Seq<SecretKey>,
        count: nat,
        after: GpuBackend<M, C, V>,
        addresses: Seq<Address>,
        r: Result<(), Error>,
    ) -> bool {
        match (before, after) {
            (GpuBackend::Metal(b), GpuBackend::Metal(a)) => M::ends(
                b,
                keys,
                count,
                a,
                addresses,
                r,
            ),
            (GpuBackend::Cuda(b), GpuBackend::Cuda(a)) => C::ends(
                *b,
                keys,
                count,
                *a,
                addresses,
                r,
            ),
            (GpuBackend::Vulkan(b), GpuBackend::Vulkan(a)) => V::ends(
                *b,
                keys,
                count,
                *a,
                addresses,
                r,
            ),
            _ => false,
        }
    }

    fn derive_batch(&mut self, keys: &[SecretKey], addresses: &mut [Address]) -> (r: Result<
        (),
        Error,
    >)
        ensures
            final(self).kind() == old(self).kind(),
    {
        match self {
            GpuBackend::Metal(backend) => backend.derive_batch(keys, addresses),
            GpuBackend::Cuda(backend) => (**backend).derive_batch(keys, addresses),
            GpuBackend::Vulkan(backend) => (**backend).derive_batch(keys, addresses),
        }
    }

    fn inflight_capacity(&self) -> (r: usize)
        ensures
            match self {
                GpuBackend::Metal(backend) => call_ensures(M::inflight_capacity, (backend,), r),
                GpuBackend::Cuda(backend) => call_ensures(C::inflight_capacity, (&**backend,), r),
                GpuBackend::Vulkan(backend) => call_ensures(V::inflight_capacity, (&**backend,), r),
            },
    {
        match self {
            GpuBackend::Metal(backend) => backend.inflight_capacity(),
            GpuBackend::Cuda(backend) => (**backend).inflight_capacity(),
            GpuBackend::Vulkan(backend) => (**backend).inflight_capacity(),
        }
    }

    fn increment_stride(&self) -> (r: usize)
        ensures
            match self {
                GpuBackend::Metal(backend) => call_ensures(M::increment_stride, (backend,), r),
                GpuBackend::Cuda(backend) => call_ensures(C::increment_stride, (&**backend,), r),
                GpuBackend::Vulkan(backend) => call_ensures(V::increment_stride, (&**backend,), r),
            },
    {
        match self {
            GpuBackend::Metal(backend) => backend.increment_stride(),
            GpuBackend::Cuda(backend) => (**backend).increment_stride(),
            GpuBackend::Vulkan(backend) => (**backend).increment_stride(),
        }
    }

    fn begin_batch(&mut self, keys: &[SecretKey], count: usize) -> (r: Result<(), Error>)
        ensures
            final(self).kind() == old(self).kind(),
            match (*old(self), *final(self)) {
                (GpuBackend::Metal(before), GpuBackend::Metal(after)) => exists|asked: &mut M|
                    *asked == before && *final(asked) == after && #[trigger] call_ensures(
                        M::begin_batch,
                        (asked, keys, count),
                        r,
                    ),
                (GpuBackend::Cuda(before), GpuBackend::Cuda(after)) => exists|asked: &mut C|
                    *asked == *before && *final(asked) == *after && #[trigger] call_ensures(
                        C::begin_batch,
                        (asked, keys, count),
                        r,
                    ),
                (GpuBackend::Vulkan(before), GpuBackend::Vulkan(after)) => exists|asked: &mut V|
                    *asked == *before && *final(asked) == *after && #[trigger] call_ensures(
                        V::begin_batch,
                        (asked, keys, count),
                        r,
                    ),
                _ => false,
            },
    {
        match self {
            GpuBackend::Metal(backend) => backend.begin_batch(keys, count),
            GpuBackend::Cuda(backend) => {
                let inner: &mut C = &mut **backend;
                inner.begin_batch(keys, count)
            },
            GpuBackend::Vulkan(backend) => {
                let inner: &mut V = &mut **backend;
                inner.begin_batch(keys, count)
            },
        }
    }

    fn end_batch(&mut self, keys: &[SecretKey], addresses: &mut [Address]) -> (r: Result<
        (),
        Error,
    >)
        ensures
            final(self).kind() == old(self).kind(),
            match (*old(self), *final(self)) {
                (GpuBackend::Metal(before), GpuBackend::Metal(after)) => exists|
                    asked: &mut M,
                    slots: &mut [Address],
                |
                    *asked == before && *final(asked) == after && slots@ == old(addresses)@
                        && final(slots)@ == final(addresses)@ && #[trigger] call_ensures(
                        M::end_batch,
                        (asked, keys, slots),
                        r,
                    ),
                (GpuBackend::Cuda(before), GpuBackend::Cuda(after)) => exists|
                    asked: &mut C,
                    slots: &mut [Address],
                |
                    *asked == *before && *final(asked) == *after && slots@ == old(addresses)@
                        && final(slots)@ == final(addresses)@ && #[trigger] call_ensures(
                        C::end_batch,
                        (asked, keys, slots),
                        r,
                    ),
                (GpuBackend::Vulkan(before), GpuBackend::Vulkan(after)) => exists|
                    asked: &mut V,
                    slots: &mut [Address],
                |
                    *asked == *before && *final(asked) == *after && slots@ == old(addresses)@
                        && final(slots)@ == final(addresses)@ && #[trigger] call_ensures(
                        V::end_batch,
                        (asked, keys, slots),
                        r,
                    ),
                _ => false,
            },
    {
        match self {
            GpuBackend::Metal(backend) => backend.end_batch(keys, addresses),
            GpuBackend::Cuda(backend) => {
                let inner: &mut C = &mut **backend;
                inner.end_batch(keys, addresses)
            },
            GpuBackend::Vulkan(backend) => {
                let inner: &mut V = &mut **backend;
                inner.end_batch(keys, addresses)
            },
        }
    }
}

/// What the search will compute on.
pub enum Selection<M, C, V> {
    Cpu { fallback: bool },
    Gpu(Box<GpuBackend<M, C, V>>),
}

/// What a choice comes to, given which devices are present.
#[derive(Clone, Copy, Debug, PartialEq, Eq, Structural)]
pub enum Resolved {
    Cpu { fallback: bool },
    Metal,
    Cuda,
    Vulkan,
}

/// What a choice comes to, given which devices are present. Only absence is
/// recoverable, and only when no device was named.
pub open spec fn resolution(choice: BackendChoice, metal: bool, cuda: bool, vulkan: bool) -> Result<
    Resolved,
    Error,
> {
    match choice {
        BackendChoice::Cpu => Ok(Resolved::Cpu { fallback: false }),
        BackendChoice::Metal => if metal {
            Ok(Resolved::Metal)
        } else {
            Err(Error::MetalUnavailable)
        },
        BackendChoice::Cuda => if cuda {
            Ok(Resolved::Cuda)
        } else {
            Err(Error::CudaUnavailable)
        },
        BackendChoice::Vulkan => if vulkan {
            Ok(Resolved::Vulkan)
        } else {
            Err(Error::VulkanUnavailable)
        },
        BackendChoice::Auto => if metal {
            Ok(Resolved::Metal)
        } else if cuda {
            Ok(Resolved::Cuda)
        } else if vulkan {
            Ok(Resolved::Vulkan)
        } else {
            Ok(Resolved::Cpu { fallback: true })
        },
    }
}

/// What a choice comes to, given which devices are present.
pub fn resolve(choice: BackendChoice, metal: bool, cuda: bool, vulkan: bool) -> (r: Result<
    Resolved,
    Error,
>)
    ensures
        r == resolution(choice, metal, cuda, vulkan),
{
    match choice {
        BackendChoice::Cpu => Ok(Resolved::Cpu { fallback: false }),
        BackendChoice::Metal => if metal {
            Ok(Resolved::Metal)
        } else {
            Err(Error::MetalUnavailable)
        },
        BackendChoice::Cuda => if cuda {
            Ok(Resolved::Cuda)
        } else {
            Err(Error::CudaUnavailable)
        },
        BackendChoice::Vulkan => if vulkan {
            Ok(Resolved::Vulkan)
        } else {
            Err(Error::VulkanUnavailable)
        },
        BackendChoice::Auto => if metal {
            Ok(Resolved::Metal)
        } else if cuda {
            Ok(Resolved::Cuda)
        } else if vulkan {
            Ok(Resolved::Vulkan)
        } else {
            Ok(Resolved::Cpu { fallback: true })
        },
    }
}

/// What a named device comes to once its driver was asked.
pub open spec fn named_outcome<M, C, V>(
    gpu: Result<Option<GpuBackend<M, C, V>>, Error>,
    absent: Error,
) -> Result<Selection<M, C, V>, Error> {
    match gpu {
        Err(e) => Err(e),
        Ok(Some(backend)) => Ok(Selection::Gpu(Box::new(backend))),
        Ok(None) => Err(absent),
    }
}

/// What a driver's answer says about the Metal device.
pub open spec fn as_metal<M, C, V>(answer: Result<Option<M>, Error>) -> Result<
    Option<GpuBackend<M, C, V>>,
    Error,
> {
    match answer {
        Err(e) => Err(e),
        Ok(None) => Ok(None),
        Ok(Some(backend)) => Ok(Some(GpuBackend::Metal(backend))),
    }
}

/// What a driver's answer says about the CUDA device.
pub open spec fn as_cuda<M, C, V>(answer: Result<Option<C>, Error>) -> Result<
    Option<GpuBackend<M, C, V>>,
    Error,
> {
    match answer {
        Err(e) => Err(e),
        Ok(None) => Ok(None),
        Ok(Some(backend)) => Ok(Some(GpuBackend::Cuda(Box::new(backend)))),
    }
}

/// What a driver's answer says about the Vulkan device.
pub open spec fn as_vulkan<M, C, V>(answer: Result<Option<V>, Error>) -> Result<
    Option<GpuBackend<M, C, V>>,
    Error,
> {
    match answer {
        Err(e) => Err(e),
        Ok(None) => Ok(None),
        Ok(Some(backend)) => Ok(Some(GpuBackend::Vulkan(Box::new(backend)))),
    }
}

/// What an open choice comes to, given the answers of the drivers. A driver is
/// asked only after those before it found no device; a failure is final.
pub open spec fn open_outcome<M, C, V>(
    metal: Result<Option<M>, Error>,
    cuda: Result<Option<C>, Error>,
    vulkan: Result<Option<V>, Error>,
) -> Result<Selection<M, C, V>, Error> {
    match metal {
        Err(e) => Err(e),
        Ok(Some(backend)) => Ok(Selection::Gpu(Box::new(GpuBackend::Metal(backend)))),
        Ok(None) => match cuda {
            Err(e) => Err(e),
            Ok(Some(backend)) => Ok(Selection::Gpu(Box::new(GpuBackend::Cuda(Box::new(backend))))),
            Ok(None) => match vulkan {
                Err(e) => Err(e),
                Ok(Some(backend)) => Ok(
                    Selection::Gpu(Box::new(GpuBackend::Vulkan(Box::new(backend)))),
                ),
                Ok(None) => Ok(Selection::Cpu { fallback: true }),
            },
        },
    }
}

/// Opens the backend that `choice` asks for. Each of the last three arguments
/// opens one kind of device for batches of up to `capacity` addresses; it
/// gives `None` where there is no such device, and an error where there is one
/// that does not work. Only absence falls back to the CPU, and only for
/// `BackendChoice::Auto`.
pub fn select<M, C, V, FM, FC, FV>(
    choice: BackendChoice,
    capacity: usize,
    metal: FM,
    cuda: FC,
    vulkan: FV,
) -> (r: Result<Selection<M, C, V>, Error>) where
    FM: FnOnce(usize) -> Result<Option<M>, Error>,
    FC: FnOnce(usize) -> Result<Option<C>, Error>,
    FV: FnOnce(usize) -> Result<Option<V>, Error>,

    requires
        metal.requires((capacity,)),
        cuda.requires((capacity,)),
        vulkan.requires((capacity,)),
    ensures
        choice is Cpu ==> r == Ok::<Selection<M, C, V>, Error>(
            Selection::Cpu { fallback: false },
        ),
        choice is Metal ==> exists|answer: Result<Option<M>, Error>| #[trigger]
            metal.ensures((capacity,), answer) && r == named_outcome(
                as_metal::<M, C, V>(answer),
                Error::MetalUnavailable,
            ),
        choice is Cuda ==> exists|answer: Result<Option<C>, Error>| #[trigger]
            cuda.ensures((capacity,), answer) && r == named_outcome(
                as_cuda::<M, C, V>(answer),
                Error::CudaUnavailable,
            ),
        choice is Vulkan ==> exists|answer: Result<Option<V>, Error>| #[trigger]
            vulkan.ensures((capacity,), answer) && r == named_outcome(
                as_vulkan::<M, C, V>(answer),
                Error::VulkanUnavailable,
            ),
        choice is Auto ==> exists|
            m: Result<Option<M>, Error>,
            c: Result<Option<C>, Error>,
            v: Result<Option<V>, Error>,
        | #[trigger]
            open_outcome(m, c, v) == r && metal.ensures((capacity,), m) && (m
                == Ok::<Option<M>, Error>(None) ==> cuda.ensures((capacity,), c)) && (m == Ok::<
                Option<M>,
                Error,
            >(None) && c == Ok::<Option<C>, Error>(None) ==> vulkan.ensures((capacity,), v)),
{
    match choice {
        BackendChoice::Cpu => Ok(Selection::Cpu { fallback: false }),
        BackendChoice::Metal => {
            let answer = metal(capacity);
            assert(metal.ensures((capacity,), answer));
            match answer {
                Err(e) => Err(e),
                Ok(Some(backend)) => Ok(Selection::Gpu(Box::new(GpuBackend::Metal(backend)))),
                Ok(None) => Err(Error::MetalUnavailable),
            }
        },
        BackendChoice::Cuda => {
            let answer = cuda(capacity);
            assert(cuda.ensures((capacity,), answer));
            match answer {
                Err(e) => Err(e),
                Ok(Some(backend)) => Ok(
                    Selection::Gpu(Box::new(GpuBackend::Cuda(Box::new(backend)))),
                ),
                Ok(None) => Err(Error::CudaUnavailable),
            }
        },
        BackendChoice::Vulkan => {
            let answer = vulkan(capacity);
            assert(vulkan.ensures((capacity,), answer));
            match answer {
                Err(e) => Err(e),
                Ok(Some(backend)) => Ok(
                    Selection::Gpu(Box::new(GpuBackend::Vulkan(Box::new(backend)))),
                ),
                Ok(None) => Err(Error::VulkanUnavailable),
            }
        },
        BackendChoice::Auto => {
            let first = metal(capacity);
            let ghost no_cuda: Result<Option<C>, Error> = Ok(None);
            let ghost no_vulkan: Result<Option<V>, Error> = Ok(None);
            let ghost m = first;
            match first {
                Err(e) => {
                    assert(open_outcome(m, no_cuda, no_vulkan) is Err);
                    return Err(e);
                },
                Ok(Some(backend)) => {
                    assert(open_outcome(m, no_cuda, no_vulkan) is Ok);
                    return Ok(Selection::Gpu(Box::new(GpuBackend::Metal(backend))));
                },
                Ok(None) => {},
            }
            let second = cuda(capacity);
            let ghost c = second;
            match second {
                Err(e) => {
                    assert(open_outcome(m, c, no_vulkan) is Err);
                    return Err(e);
                },
                Ok(Some(backend)) => {
                    assert(open_outcome(m, c, no_vulkan) is Ok);
                    return Ok(Selection::Gpu(Box::new(GpuBackend::Cuda(Box::new(backend)))));
                },
                Ok(None) => {},
            }
            let third = vulkan(capacity);
            let ghost v = third;
            let outcome = match third {
                Err(e) => Err(e),
                Ok(Some(backend)) => Ok(
                    Selection::Gpu(Box::new(GpuBackend::Vulkan(Box::new(backend)))),
                ),
                Ok(None) => Ok(Selection::Cpu { fallback: true }),
            };
            assert(open_outcome(m, c, v) == outcome);
            outcome
        },
    }
}

/// The kind of backend that a selection names.
pub open spec fn selected_kind<M, C, V>(selection: Selection<M, C, V>) -> Resolved {
    match selection {
        Selection::Cpu { fallback } => Resolved::Cpu { fallback },
        Selection::Gpu(backend) => match *backend {
            GpuBackend::Metal(_) => Resolved::Metal,
            GpuBackend::Cuda(_) => Resolved::Cuda,
            GpuBackend::Vulkan(_) => Resolved::Vulkan,
        },
    }
}

/// Where no driver fails, opening a backend settles on the kind that
/// `resolution` names, and refuses where it refuses.
pub proof fn law_select_follows_resolution<M, C, V>(
    metal: Option<M>,
    cuda: Option<C>,
    vulkan: Option<V>,
)
    ensures
        open_outcome(
            Ok::<Option<M>, Error>(metal),
            Ok::<Option<C>, Error>(cuda),
            Ok::<Option<V>, Error>(vulkan),
        ) matches Ok(selection) && resolution(
            BackendChoice::Auto,
            metal is Some,
            cuda is Some,
            vulkan is Some,
        ) == Ok::<Resolved, Error>(selected_kind(selection)),
        match named_outcome(
            as_metal::<M, C, V>(Ok(metal)),
            Error::MetalUnavailable,
        ) {
            Ok(selection) => resolution(
                BackendChoice::Metal,
                metal is Some,
                cuda is Some,
                vulkan is Some,
            ) == Ok::<Resolved, Error>(selected_kind(selection)),
            Err(e) => resolution(
                BackendChoice::Metal,
                metal is Some,
                cuda is Some,
                vulkan is Some,
            ) == Err::<Resolved, Error>(e),
        },
        match named_outcome(as_cuda::<M, C, V>(Ok(cuda)), Error::CudaUnavailable) {
            Ok(selection) => resolution(
                BackendChoice::Cuda,
                metal is Some,
                cuda is Some,
                vulkan is Some,
            ) == Ok::<Resolved, Error>(selected_kind(selection)),
            Err(e) => resolution(
                BackendChoice::Cuda,
                metal is Some,
                cuda is Some,
                vulkan is Some,
            ) == Err::<Resolved, Error>(e),
        },
        match named_outcome(
            as_vulkan::<M, C, V>(Ok(vulkan)),
            Error::VulkanUnavailable,
        ) {
            Ok(selection) => resolution(
                BackendChoice::Vulkan,
                metal is Some,
                cuda is Some,
                vulkan is Some,
            ) == Ok::<Resolved, Error>(selected_kind(selection)),
            Err(e) => resolution(
                BackendChoice::Vulkan,
                metal is Some,
                cuda is Some,
                vulkan is Some,
            ) == Err::<Resolved, Error>(e),
        },
{
}

/// The scalars of the three startup batches: `1`, `n - 1`, and one chain.
pub open spec fn is_self_test(batches: Seq<Seq<nat>>, first: nat, chain: nat) -> bool {
    &&& batches.len() == 3
    &&& batches[0] == seq![1nat]
    &&& batches[1] == seq![(curve_order() - 1) as nat]
    &&& batches[2] == Seq::new(chain, |i: int| (first + i) as nat)
}

/// The numbers of a list of keys.
pub open spec fn scalars(keys: Seq<SecretKey>) -> Seq<nat> {
    keys.map_values(|key: SecretKey| key@)
}

/// The first scalar of the startup chain: the stride, at least two, as a byte.
pub open spec fn self_test_first(stride: nat) -> nat {
    if stride < 2 {
        2
    } else {
        stride % 256
    }
}

/// The length of the startup chain.
pub open spec fn self_test_chain(stride: nat, capacity: nat) -> nat {
    let wanted = if stride < 3 {
        3
    } else {
        stride
    };
    if capacity <= 1 {
        1
    } else if wanted <= capacity {
        wanted
    } else {
        capacity
    }
}

/// The key with the given small scalar.
fn small_key(value: u8) -> (r: Result<SecretKey, Error>)
    ensures
        r is Ok <==> value != 0,
        r matches Ok(key) ==> key@ == value,
        r matches Err(e) ==> e == Error::InvalidScalar,
{
    let mut bytes: [u8; 32] = [0; 32];
    bytes[31] = value;
    proof {
        lemma_be_value_zeros(bytes@.drop_last());
    }
    SecretKey::from_byte_array(bytes)
}

/// The key with the largest scalar.
fn last_key() -> (r: Result<SecretKey, Error>)
    ensures
        r matches Ok(key) && key@ == curve_order() - 1,
{
    let mut bytes: [u8; 32] = curve_order_bytes();
    let low: u8 = bytes[31];
    proof {
        assert(low == bytes@.last());
        assert(be_value(bytes@) == be_value(bytes@.drop_last()) * 256 + low);
        assert(pow256(0) == 1);
        if low > 0 {
            lemma_be_value_update(bytes@, 31, (low - 1) as u8);
            assert((low - 1 - low) * 1 == -1);
        }
    }
    bytes[31] = low - 1;
    SecretKey::from_byte_array(bytes)
}

/// The startup vectors: `1`, `n - 1`, and one full chain. Each batch is the
/// complete scalar list. The chain starts at the stride, which every kernel
/// formula accepts; a stride whose low byte is zero gives no start.
pub fn gpu_self_test_batches(stride: usize, capacity: usize) -> (r: Result<
    Vec<Vec<SecretKey>>,
    Error,
>)
    ensures
        r is Ok <==> self_test_first(stride as nat) != 0,
        r matches Err(e) ==> e == Error::InvalidScalar,
        r matches Ok(batches) ==> is_self_test(
            batches@.map_values(|batch: Vec<SecretKey>| scalars(batch@)),
            self_test_first(stride as nat),
            self_test_chain(stride as nat, capacity as nat),
        ),
{
    let first: u8 = if stride < 2 { 2 } else { (stride % 256) as u8 };
    let wanted: usize = if stride < 3 { 3 } else { stride };
    let len: usize = if wanted <= capacity { wanted } else { capacity };
    let mut key: SecretKey = small_key(first)?;
    let mut chain: Vec<SecretKey> = Vec::new();
    chain.push(key);
    while chain.len() < len
        invariant
            first == self_test_first(stride as nat),
            1 <= chain@.len(),
            chain@.len() <= len || chain@.len() == 1,
            key@ == first + chain@.len() - 1,
            forall|i: int| 0 <= i < chain@.len() ==> (#[trigger] chain@[i])@ == first + i,
        decreases len - chain@.len(),
    {
        match increment_secret_key(&key) {
            Some(next) => {
                key = next;
            },
            None => {
                return Err(Error::SelfTestOverflow);
            },
        }
        chain.push(key);
    }
    let one: SecretKey = small_key(1)?;
    let last: SecretKey = last_key()?;
    let mut first_batch: Vec<SecretKey> = Vec::new();
    first_batch.push(one);
    let mut second_batch: Vec<SecretKey> = Vec::new();
    second_batch.push(last);
    let mut batches: Vec<Vec<SecretKey>> = Vec::new();
    batches.push(first_batch);
    batches.push(second_batch);
    batches.push(chain);
    proof {
        let views = batches@.map_values(|batch: Vec<SecretKey>| scalars(batch@));
        assert(views[0] =~= seq![1nat]);
        assert(views[1] =~= seq![(curve_order() - 1) as nat]);
        assert(views[2] =~= Seq::new(
            self_test_chain(stride as nat, capacity as nat),
            |i: int| (self_test_first(stride as nat) + i) as nat,
        ));
    }
    Ok(batches)
}

/// Whether `addresses` are confirmed by the CPU, slot by slot, for as many
/// slots as there are keys.
pub fn check_self_test_batch(keys: &[SecretKey], addresses: &[Address]) -> (r: Result<(), Error>)
    ensures
        r is Ok <==> all_confirmed(keys@, addresses@),
        r matches Err(e) ==> e == Error::AddressMismatch,
{
    let mut i: usize = 0;
    while i < keys.len() && i < addresses.len()
        invariant
            i <= keys@.len(),
            i <= addresses@.len(),
            forall|k: int|
                0 <= k < i ==> (#[trigger] addresses@[k])@ == address_of(keys@[k]@),
        decreases keys@.len() - i,
    {
        match verify_address(&keys[i], &addresses[i]) {
            Ok(()) => {},
            Err(e) => {
                assert(addresses@[i as int]@ != address_of(keys@[i as int]@));
                return Err(e);
            },
        }
        i += 1;
    }
    Ok(())
}

/// The first key of each chain of `stride` in a list of keys.
pub open spec fn starts_of(keys: Seq<SecretKey>, stride: nat) -> Seq<SecretKey> {
    Seq::new(chains_for(keys.len(), stride), |i: int| keys[i * chain_len(stride)])
}

/// Whether the CPU confirms the addresses, for as many as there are keys.
pub open spec fn all_confirmed(keys: Seq<SecretKey>, addresses: Seq<Address>) -> bool {
    forall|i: int|
        0 <= i < keys.len() && i < addresses.len() ==> (#[trigger] addresses[i])@ == address_of(
            keys[i]@,
        )
}

/// Whether giving these batches to a backend, one after the other, can lead
/// from `before` to `after` and give `r`. The first batch that the backend
/// refuses, or whose addresses the CPU does not confirm, ends the test.
pub open spec fn self_test_run<B: AddressBackend>(
    before: B,
    after: B,
    batches: Seq<Seq<SecretKey>>,
    stride: nat,
    r: Result<(), Error>,
) -> bool
    decreases batches.len(),
{
    if batches.len() == 0 {
        after == before && r is Ok
    } else {
        let keys = batches[0];
        exists|next: B, addresses: Seq<Address>, derived: Result<(), Error>| #[trigger]
            B::derives(before, starts_of(keys, stride), keys.len(), next, addresses, derived)
                && addresses.len() == keys.len() && match derived {
                Err(e) => r == Err::<(), Error>(e) && after == next,
                Ok(_) => if all_confirmed(keys, addresses) {
                    self_test_run(next, after, batches.drop_first(), stride, r)
                } else {
                    r == Err::<(), Error>(Error::AddressMismatch) && after == next
                },
            }
    }
}

/// Runs the startup vectors through `backend` and checks every address on the
/// CPU. The first failure ends the test.
pub fn run_self_test<B: AddressBackend>(backend: &mut B, capacity: usize) -> (r: Result<(), Error>)
    ensures
        exists|stride: usize| #[trigger]
            call_ensures(B::increment_stride, (&*old(backend),), stride) && if self_test_first(
                stride as nat,
            ) == 0 {
                r == Err::<(), Error>(Error::InvalidScalar) && *final(backend) == *old(backend)
            } else {
                exists|batches: Seq<Seq<SecretKey>>|
                    is_self_test(
                        batches.map_values(|batch: Seq<SecretKey>| scalars(batch)),
                        self_test_first(stride as nat),
                        self_test_chain(stride as nat, capacity as nat),
                    ) && #[trigger] self_test_run(
                        *old(backend),
                        *final(backend),
                        batches,
                        stride as nat,
                        r,
                    )
            },
{
    let stride: usize = backend.increment_stride();
    let batches: Vec<Vec<SecretKey>> = gpu_self_test_batches(stride, capacity)?;
    let ghost views = batches@.map_values(|batch: Vec<SecretKey>| batch@);
    proof {
        assert(views.map_values(|batch: Seq<SecretKey>| scalars(batch)) =~= batches@.map_values(
            |batch: Vec<SecretKey>| scalars(batch@),
        ));
        assert(views.skip(0) =~= views);
    }
    let mut i: usize = 0;
    while i < batches.len()
        invariant
            i <= batches@.len(),
            views == batches@.map_values(|batch: Vec<SecretKey>| batch@),
            call_ensures(B::increment_stride, (&*old(backend),), stride),
            self_test_first(stride as nat) != 0,
            is_self_test(
                views.map_values(|batch: Seq<SecretKey>| scalars(batch)),
                self_test_first(stride as nat),
                self_test_chain(stride as nat, capacity as nat),
            ),
            forall|after: B, r: Result<(), Error>| #[trigger]
                self_test_run(*backend, after, views.skip(i as int), stride as nat, r)
                    ==> self_test_run(*old(backend), after, views, stride as nat, r),
        decreases batches@.len() - i,
    {
        let keys: &Vec<SecretKey> = &batches[i];
        let mut addresses: Vec<Address> = vec![[0u8; 20]; keys.len()];
        let starts: Vec<SecretKey> = chain_starts(keys.as_slice(), stride);
        let ghost before = *backend;
        let derived = backend.derive_batch(starts.as_slice(), addresses.as_mut_slice());
        proof {
            let rest = views.skip(i as int);
            assert(rest[0] == keys@);
            assert(rest.drop_first() =~= views.skip(i + 1));
            assert(starts@ =~= starts_of(keys@, stride as nat));
            assert(B::derives(
                before,
                starts_of(keys@, stride as nat),
                keys@.len(),
                *backend,
                addresses@,
                derived,
            ));
            if derived is Err {
                assert(self_test_run(before, *backend, rest, stride as nat, derived));
            } else if !all_confirmed(keys@, addresses@) {
                let mismatch = Err::<(), Error>(Error::AddressMismatch);
                assert(self_test_run(before, *backend, rest, stride as nat, mismatch));
            } else {
                assert forall|after: B, r: Result<(), Error>| #[trigger]
                    self_test_run(*backend, after, views.skip(i + 1), stride as nat, r) implies
                    self_test_run(before, after, rest, stride as nat, r) by {}
            }
        }
        derived?;
        check_self_test_batch(keys.as_slice(), addresses.as_slice())?;
        i += 1;
    }
    assert(self_test_run(*backend, *backend, views.skip(i as int), stride as nat, Ok(())));
    Ok(())
}

/// The startup chain may start where it does: kernels can walk a whole chain
/// from there.
pub proof fn law_self_test_start_is_accepted(stride: nat)
    requires
        stride < 256,
    ensures
        is_scalar(self_test_first(stride)),
        start_accepted(self_test_first(stride), stride),
{
}

/// The addresses per GPU batch that a text asks for.
pub fn parse_gpu_batch_size(text: &str) -> (r: Result<u32, Error>)
    ensures
        match number_of(text@, MAX_GPU_BATCH_SIZE as nat) {
            Some(size) => if size >= 1 {
                r == Ok::<u32, Error>(size as u32)
            } else {
                r == Err::<u32, Error>(Error::InvalidGpuBatchSize)
            },
            None => r == Err::<u32, Error>(Error::InvalidGpuBatchSize),
        },
{
    match parse_number(text, MAX_GPU_BATCH_SIZE as u64) {
        Some(size) => if size >= 1 {
            Ok(size as u32)
        } else {
            Err(Error::InvalidGpuBatchSize)
        },
        None => Err(Error::InvalidGpuBatchSize),
    }
}

}
