//! Backend choice, tables, launches, device picking and slotted GPU backends.
use std::cell::RefCell;
use vanity_rs::address::{derive_address, Address};
use vanity_rs::backend::{
    check_self_test_batch, gpu_self_test_batches, parse_gpu_batch_size, resolve, run_self_test,
    select, AddressBackend, BackendChoice, CpuBackend, GpuBackend, NamedDevice, Resolved,
    Selection, DEFAULT_GPU_BATCH_SIZE,
};
use vanity_rs::chain::{chain_key, chain_starts};
use vanity_rs::device::{
    compute_queue_family, memory_type_index, pick_cuda_device, pick_vulkan_device, CudaDevice,
    VulkanDevice, VulkanKind,
};
use vanity_rs::entropy::{KeyRng, SeededRng};
use vanity_rs::error::Error;
use vanity_rs::gpu::{
    check_capacity, erase_upload, prepare_upload, unpack_addresses, GpuDriver, KeyLayout,
    SlottedBackend,
};
use vanity_rs::launch::{check_tuned_kernel, check_tuning_group, dispatch_group, group_count};
use vanity_rs::metal::{shader_source, Dispatch, MetalConfig, MetalKernel, MetalSettings, SlotBuffer};
use vanity_rs::ring::{GpuApi, SlotRing};
use vanity_rs::scalar::{increment_secret_key, SecretKey};
use vanity_rs::table::{build_table, build_window, table_bytes, write_table_entry};
use vanity_rs::text::{decimal_text, parse_number, same_text};

fn scalar(value: u8) -> SecretKey {
    let mut bytes = [0u8; 32];
    bytes[31] = value;
    SecretKey::from_byte_array(bytes).unwrap()
}

fn sequential_keys(count: usize) -> Vec<SecretKey> {
    let mut key = scalar(64);
    let mut keys = vec![key];
    while keys.len() < count {
        key = increment_secret_key(&key).unwrap();
        keys.push(key);
    }
    keys
}

#[test]
fn selection_only_falls_back_when_device_is_absent() {
    assert_eq!(
        resolve(BackendChoice::Cpu, true, true, true).unwrap(),
        Resolved::Cpu { fallback: false }
    );
    assert_eq!(
        resolve(BackendChoice::Auto, true, true, true).unwrap(),
        Resolved::Metal
    );
    assert_eq!(
        resolve(BackendChoice::Auto, false, true, true).unwrap(),
        Resolved::Cuda
    );
    assert_eq!(
        resolve(BackendChoice::Auto, false, false, true).unwrap(),
        Resolved::Vulkan
    );
    assert_eq!(
        resolve(BackendChoice::Auto, false, false, false).unwrap(),
        Resolved::Cpu { fallback: true }
    );
    assert_eq!(
        resolve(BackendChoice::Metal, true, false, false).unwrap(),
        Resolved::Metal
    );
    assert_eq!(
        resolve(BackendChoice::Cuda, false, true, false).unwrap(),
        Resolved::Cuda
    );
    assert_eq!(
        resolve(BackendChoice::Vulkan, false, false, true).unwrap(),
        Resolved::Vulkan
    );
    assert_eq!(
        resolve(BackendChoice::Metal, false, true, true)
            .unwrap_err()
            .message(),
        "Metal unavailable: no accessible GPU or unsupported platform"
    );
    assert_eq!(
        resolve(BackendChoice::Cuda, true, false, true)
            .unwrap_err()
            .message(),
        "CUDA unavailable: no accessible GPU or unsupported platform"
    );
    assert_eq!(
        resolve(BackendChoice::Vulkan, true, true, false)
            .unwrap_err()
            .message(),
        "Vulkan unavailable: no accessible GPU or unsupported platform"
    );
}

struct Fake(&'static str);

impl NamedDevice for Fake {
    fn device_name(&self) -> String {
        self.0.to_string()
    }
}

type Opened = Result<Option<Fake>, Error>;

fn absent(_: usize) -> Opened {
    Ok(None)
}

fn pick_backend(choice: BackendChoice, metal: Opened, cuda: Opened, vulkan: Opened) -> Result<Selection<Fake, Fake, Fake>, Error> {
    select(choice, 1024, |_| metal, |_| cuda, |_| vulkan)
}

#[test]
fn explicit_cuda_does_not_fall_back_when_unavailable() {
    let error = select(BackendChoice::Cuda, 1024, absent, absent, absent)
        .err()
        .expect("explicit cuda must fail when no device is present");
    assert_eq!(
        error.message(),
        "CUDA unavailable: no accessible GPU or unsupported platform"
    );
}

#[test]
fn explicit_vulkan_does_not_fall_back_when_unavailable() {
    let error = select(BackendChoice::Vulkan, 1024, absent, absent, absent)
        .err()
        .expect("explicit vulkan must fail when no device is present");
    assert_eq!(
        error.message(),
        "Vulkan unavailable: no accessible GPU or unsupported platform"
    );
}

#[test]
fn only_absence_falls_back() {
    let found = pick_backend(BackendChoice::Auto, Ok(None), Ok(Some(Fake("card"))), Ok(None)).unwrap();
    match found {
        Selection::Gpu(gpu) => {
            assert_eq!(gpu.kind_name(), "cuda");
            assert_eq!(gpu.device_name(), "card");
        }
        Selection::Cpu { .. } => panic!("a device was there"),
    }
    let broken = Error::Reported("self-test failed".into());
    assert_eq!(
        pick_backend(BackendChoice::Auto, Err(broken), Ok(Some(Fake("card"))), Ok(None))
            .err()
            .unwrap()
            .message(),
        "self-test failed"
    );
    assert!(matches!(
        pick_backend(BackendChoice::Auto, Ok(None), Ok(None), Ok(None)).unwrap(),
        Selection::Cpu { fallback: true }
    ));
    assert!(matches!(
        select::<Fake, Fake, Fake, _, _, _>(
            BackendChoice::Cpu,
            1,
            |_| panic!("not asked"),
            |_| panic!("not asked"),
            |_| panic!("not asked")
        )
        .unwrap(),
        Selection::Cpu { fallback: false }
    ));
    let kinds: [GpuBackend<Fake, Fake, Fake>; 2] = [
        GpuBackend::Metal(Fake("m")),
        GpuBackend::Vulkan(Box::new(Fake("v"))),
    ];
    assert_eq!((kinds[0].kind_name(), kinds[1].kind_name()), ("metal", "vulkan"));
    assert_eq!((kinds[0].device_name(), kinds[1].device_name()), ("m".into(), "v".into()));
}

#[test]
fn gpu_batch_sizes_are_read_in_range() {
    assert_eq!(DEFAULT_GPU_BATCH_SIZE, 262_144);
    for valid in ["1", "33", "65536", "131072", "262144"] {
        assert_eq!(parse_gpu_batch_size(valid).unwrap().to_string(), valid);
    }
    for invalid in ["0", "262145", "-1", "abc", "", "99999999999999999999999"] {
        assert!(parse_gpu_batch_size(invalid).is_err());
    }
}

#[test]
fn numbers_are_written_and_read_in_decimal() {
    for number in [0, 9, 10, 4096, u64::MAX] {
        assert_eq!(decimal_text(number), number.to_string());
        assert_eq!(parse_number(&number.to_string(), u64::MAX), Some(number));
    }
    assert_eq!(parse_number("+7", 255), Some(7));
    for invalid in ["", "+", "256", "1 ", "é"] {
        assert_eq!(parse_number(invalid, 255), None);
    }
    assert!(same_text("auto", "auto"));
    assert!(!same_text("auto", "aut"));
    assert!(!same_text("1", "0"));
}

#[test]
fn table_byte_counts_match_window_geometry() {
    assert_eq!(table_bytes(4), 64 * 16 * 64);
    assert_eq!(table_bytes(8), 32 * 256 * 64);
    assert_eq!(table_bytes(16), 16 * 65536 * 64);
}

// Checks one window of a table: digit zero, the borders, and either every other
// digit or, for large radices, six digits of the generator.
fn check_window(window_bits: u8, window: usize, row: &[u8], rng: &mut SeededRng) {
    let radix = 1usize << window_bits;
    assert_eq!(row.len(), radix * 64);
    assert!(
        row[..64].iter().all(|&byte| byte == 0),
        "window {window} digit 0 must stay zero"
    );
    let mut digits = vec![1, 2, radix / 2, radix - 2, radix - 1];
    if window_bits == 16 {
        for _ in 0..6 {
            let mut bytes = [0u8; 32];
            rng.fill_bytes(&mut bytes);
            let drawn = u32::from_le_bytes(bytes[..4].try_into().unwrap());
            digits.push(1 + (drawn as usize) % (radix - 1));
        }
    } else {
        digits.extend(3..radix - 2);
    }
    for digit in digits {
        let value = num_bigint::BigUint::from(digit) << (window_bits as usize * window);
        let mut scalar = [0u8; 32];
        let big_endian = value.to_bytes_be();
        scalar[32 - big_endian.len()..].copy_from_slice(&big_endian);
        let key = secp256k1::SecretKey::from_byte_array(scalar).unwrap();
        let public = secp256k1::PublicKey::from_secret_key_global(&key).serialize_uncompressed();
        let mut expected = [0u8; 64];
        write_table_entry(&mut expected, &public);
        let offset = digit * 64;
        assert_eq!(
            &row[offset..offset + 64],
            &expected[..],
            "window {window} digit {digit} ({window_bits}-bit)"
        );
    }
}

// The 16-bit table has a million points, so its windows are built and checked
// four at a time.
fn check_wide_windows(first: usize) {
    let mut rng = SeededRng::from_seed(&[71; 32]);
    for window in 0..16 {
        if window < first {
            for _ in 0..6 {
                let mut bytes = [0u8; 32];
                rng.fill_bytes(&mut bytes);
            }
        } else if window < first + 4 {
            let row = build_window(16, window).unwrap();
            assert_eq!(row.len() * 16, table_bytes(16));
            check_window(16, window, &row, &mut rng);
        }
    }
}

#[test]
fn incremental_table_matches_scalar_multiplication() {
    let mut rng = SeededRng::from_seed(&[71; 32]);
    for window_bits in [4u8, 8] {
        let table = build_table(window_bits).unwrap();
        assert_eq!(table.len(), table_bytes(window_bits));
        let windows = 256 / window_bits as usize;
        let row_len = (1usize << window_bits) * 64;
        for window in 0..windows {
            let row = &table[window * row_len..(window + 1) * row_len];
            check_window(window_bits, window, row, &mut rng);
        }
    }
    check_wide_windows(0);
}

#[test]
fn wide_table_windows_from_four_match() {
    check_wide_windows(4);
}

#[test]
fn wide_table_windows_from_eight_match() {
    check_wide_windows(8);
}

#[test]
fn wide_table_windows_from_twelve_match() {
    check_wide_windows(12);
}

#[test]
fn table_entries_hold_little_endian_words_least_significant_first() {
    let mut public = [0u8; 65];
    for (index, byte) in public.iter_mut().enumerate() {
        *byte = index as u8;
    }
    let mut slot = [0xeeu8; 66];
    write_table_entry(&mut slot, &public);
    for coordinate in 0..2 {
        for limb in 0..8 {
            let start = 1 + coordinate * 32 + (7 - limb) * 4;
            let word = u32::from_be_bytes(public[start..start + 4].try_into().unwrap());
            assert_eq!(slot[coordinate * 32 + limb * 4..][..4], word.to_le_bytes());
        }
    }
    assert_eq!(slot[64..], [0xee, 0xee]);
}

#[test]
fn metal_config_rejects_invalid_window_inflight_and_chunk() {
    let mut invalid = MetalConfig {
        window_bits: 5,
        ..MetalConfig::default()
    };
    assert!(invalid.validate().is_err());
    invalid.window_bits = 16;
    assert!(invalid.validate().is_ok());
    invalid.inflight = 3;
    assert!(invalid.validate().is_err());
    invalid.inflight = 1;
    invalid.chunk = 3;
    assert!(invalid.validate().is_err());
    invalid.chunk = 8;
    invalid.invert = true;
    assert!(invalid.validate().is_err());
    invalid.invert = false;
    assert!(invalid.validate().is_ok());
    invalid.fuse = true;
    invalid.chunk = 0;
    assert!(invalid.validate().is_err());
    invalid.chunk = 8;
    assert!(invalid.validate().is_ok());
    invalid.chunk = 16;
    assert!(invalid.validate().is_ok());
    invalid.chunk = 32;
    assert!(invalid.validate().is_ok());
    invalid.chunk = 64;
    assert!(invalid.validate().is_err());
    invalid.chunk = 8;
    invalid.invert = true;
    assert!(invalid.validate().is_err());
    invalid.invert = false;
    assert!(invalid.validate().is_ok());
    invalid.stride = 3;
    assert!(invalid.validate().is_err());
    invalid.stride = 32;
    invalid.fuse = false;
    assert!(invalid.validate().is_err());
    invalid.fuse = true;
    invalid.stride = 1;
    assert!(invalid.validate().is_ok());
}

fn no_settings() -> MetalSettings {
    MetalSettings {
        bulk: None,
        square: None,
        fast_add: None,
        invert: None,
        keccak: None,
        fuse: None,
        group: None,
        window: None,
        inflight: None,
        chunk: None,
        stride: None,
    }
}

#[test]
fn metal_settings_are_read_from_text() {
    assert_eq!(
        MetalConfig::from_settings(&no_settings()).unwrap(),
        MetalConfig::default()
    );
    let mut settings = no_settings();
    settings.invert = Some("1".into());
    settings.group = Some("64".into());
    let config = MetalConfig::from_settings(&settings).unwrap();
    assert_eq!(
        (config.invert, config.chunk, config.fuse, config.stride, config.group),
        (true, 0, false, 1, Some(64))
    );
    settings.group = Some("auto".into());
    assert_eq!(MetalConfig::from_settings(&settings).unwrap().group, None);
    for (setting, message) in [
        ("FUSE", "VANITY_BENCH_FUSE must be 0 or 1"),
        ("WINDOW", "invalid benchmark window"),
        ("STRIDE", "invalid benchmark stride"),
        ("CHUNK", "VANITY_BENCH_CHUNK must be 0, 4, 8, 16 or 32"),
    ] {
        let mut settings = no_settings();
        match setting {
            "FUSE" => settings.fuse = Some("yes".into()),
            "WINDOW" => settings.window = Some("x".into()),
            "STRIDE" => settings.stride = Some("256".into()),
            _ => settings.chunk = Some("5".into()),
        }
        assert_eq!(
            MetalConfig::from_settings(&settings).err().unwrap().message(),
            message
        );
    }
}

#[test]
fn metal_plans_follow_the_settings() {
    let config = MetalConfig::default();
    assert_eq!(config.increment_stride(), 32);
    assert_eq!(
        config.dispatches(70),
        vec![Dispatch {
            kernel: MetalKernel::ChunkDerive,
            input: SlotBuffer::Keys,
            output: SlotBuffer::Addresses,
            threads: 3,
        }]
    );
    assert_eq!(config.kernels(), vec![MetalKernel::Derive, MetalKernel::ChunkDerive]);
    let split = MetalConfig {
        fuse: false,
        stride: 1,
        ..config
    };
    assert!(split.split());
    assert_eq!(split.increment_stride(), 1);
    let plan = split.dispatches(70);
    assert_eq!((plan[0].kernel.name(), plan[0].threads), ("jacobian_points", 70));
    assert_eq!(
        (plan[1].kernel.name(), plan[1].threads),
        ("chunk_invert_affine_keccak", 9)
    );
    assert_eq!(
        shader_source(&config, "kernel"),
        "#define OPT_SQUARE 0\n#define OPT_ADD 0\n#define OPT_INVERT 0\n#define WINDOW_BITS 16\n\
         #define CHUNK_SIZE 8\n#define OPT_KECCAK 0\n#define INCREMENT_STRIDE 32\nkernel"
    );
}

#[test]
fn launches_cover_every_address() {
    // CUDA: chains of 32 in blocks of 128. Vulkan: chunks of 8 in groups of 64.
    assert_eq!(group_count(262_144, 32, 128), 64);
    assert_eq!(group_count(4097, 32, 128), 2);
    assert_eq!(group_count(512, 8, 64), 1);
    assert_eq!(group_count(513, 8, 64), 2);
    assert_eq!(dispatch_group(None, 32, 1024).unwrap(), 128);
    assert_eq!(dispatch_group(None, 48, 100).unwrap(), 96);
    assert_eq!(dispatch_group(Some(64), 32, 1024).unwrap(), 64);
    assert_eq!(
        dispatch_group(Some(40), 32, 1024).err().unwrap().message(),
        "invalid dispatch group"
    );
    assert_eq!(
        dispatch_group(None, 0, 1024).err().unwrap().message(),
        "invalid Metal pipeline thread limits"
    );
    assert!(check_tuning_group(Some(256)).is_ok());
    assert_eq!(
        check_tuning_group(Some(48)).err().unwrap().message(),
        "unsupported tuning group"
    );
    assert!(check_tuned_kernel(Some(64), 32, 64).is_ok());
    assert_eq!(
        check_tuned_kernel(Some(64), 48, 64).err().unwrap().message(),
        "invalid tuned threadgroup size"
    );
}

#[test]
fn devices_are_picked_by_preference_and_order() {
    let card = |integrated, major, minor| CudaDevice {
        capability: Some((major, minor)),
        integrated: Some(integrated),
    };
    assert_eq!(pick_cuda_device(&[]), None);
    assert_eq!(pick_cuda_device(&[card(0, 5, 2)]), None);
    assert_eq!(pick_cuda_device(&[card(1, 9, 0), card(0, 6, 0)]), Some(1));
    assert_eq!(pick_cuda_device(&[card(0, 8, 6), card(0, 8, 6), card(0, 8, 9)]), Some(2));
    assert_eq!(pick_cuda_device(&[card(0, 8, 6), card(0, 8, 6)]), Some(0));
    let unknown = CudaDevice {
        capability: None,
        integrated: Some(0),
    };
    assert_eq!(pick_cuda_device(&[unknown, card(1, 6, 0)]), Some(1));

    let table = 64 << 20;
    let base = VulkanDevice {
        kind: VulkanKind::Integrated,
        vendor_id: 0x10de,
        shader_int64: true,
        max_storage_buffer_range: table,
        max_work_group_size: 64,
        max_work_group_invocations: 64,
        max_push_constants_size: 4,
        compute_queue_family: Some(0),
    };
    let discrete = VulkanDevice {
        kind: VulkanKind::Discrete,
        ..base
    };
    let amd = VulkanDevice {
        vendor_id: 0x1002,
        ..base
    };
    assert_eq!(pick_vulkan_device(&[base, discrete, discrete], table), Some(1));
    assert_eq!(pick_vulkan_device(&[discrete, amd], table), Some(1));
    for unfit in [
        VulkanDevice { kind: VulkanKind::Other, ..base },
        VulkanDevice { shader_int64: false, ..base },
        VulkanDevice { max_storage_buffer_range: table - 1, ..base },
        VulkanDevice { max_work_group_size: 63, ..base },
        VulkanDevice { max_work_group_invocations: 63, ..base },
        VulkanDevice { max_push_constants_size: 3, ..base },
        VulkanDevice { compute_queue_family: None, ..base },
    ] {
        assert_eq!(pick_vulkan_device(&[unfit], table), None);
    }
    assert_eq!(compute_queue_family(&[1, 4, 2 | 4, 2]), Some(2));
    assert_eq!(compute_queue_family(&[1]), None);
    assert_eq!(memory_type_index(&[1, 6, 7], 0b110, 6), Some(1));
    assert_eq!(memory_type_index(&[1, 6, 7], 0b100, 6), Some(2));
    assert_eq!(memory_type_index(&[1, 6, 7], 0b001, 6), None);
}

#[test]
fn slots_are_used_in_turn() {
    let ring = SlotRing::new(2);
    let api = GpuApi::Cuda;
    assert_eq!(ring.next_free(api, 5, 8).unwrap(), Some(0));
    assert_eq!(ring.next_free(api, 0, 8).unwrap(), None);
    assert_eq!(
        ring.next_free(api, 9, 8).err().unwrap().message(),
        "batch exceeds CUDA capacity"
    );
    assert_eq!(
        ring.oldest(GpuApi::Vulkan).err().unwrap().message(),
        "no in-flight Vulkan batch to collect"
    );
    let ring = ring.submitted();
    assert_eq!(ring.next_free(api, 5, 8).unwrap(), Some(1));
    let ring = ring.submitted();
    assert_eq!(
        ring.next_free(GpuApi::Metal, 5, 8).err().unwrap().message(),
        "Metal in-flight slots exhausted"
    );
    assert_eq!(ring.oldest(api).unwrap(), 0);
    let ring = ring.collected();
    assert_eq!((ring.oldest(api).unwrap(), ring.next_free(api, 1, 8).unwrap()), (1, Some(0)));
}

/// Where a device fails, if it does.
#[derive(Clone, Copy, PartialEq)]
enum Fault {
    Nowhere,
    Submit,
    Wait,
    Read,
    Truncated,
    Corrupt,
}

fn fails(fault: Fault, at: Fault) -> Result<(), Error> {
    if fault == at {
        Err(Error::Reported("device lost".into()))
    } else {
        Ok(())
    }
}

/// A device whose kernels run on the CPU, one scalar per address.
struct CpuDriver<'a> {
    slots: [Option<(Vec<u8>, usize)>; 2],
    cleared: &'a RefCell<Vec<usize>>,
    fault: Fault,
}

impl GpuDriver for CpuDriver<'_> {
    fn submit(&mut self, slot: usize, keys: &[u8], count: usize) -> Result<(), Error> {
        assert!(self.slots[slot].is_none());
        assert_eq!(keys.len(), count * 32);
        self.slots[slot] = Some((keys.to_vec(), count));
        fails(self.fault, Fault::Submit)
    }

    fn wait(&mut self, slot: usize) -> Result<(), Error> {
        assert!(self.slots[slot].is_some());
        fails(self.fault, Fault::Wait)
    }

    fn read(&mut self, slot: usize, bytes: &mut Vec<u8>) -> Result<(), Error> {
        let (keys, _) = self.slots[slot].as_ref().unwrap();
        for key in keys.chunks(32) {
            let key = SecretKey::from_byte_array(key.try_into().unwrap()).unwrap();
            let mut address = derive_address(&key);
            if self.fault == Fault::Corrupt {
                address[0] ^= 1;
            }
            bytes.extend(address);
        }
        if self.fault == Fault::Truncated {
            bytes.pop();
        }
        fails(self.fault, Fault::Read)
    }

    fn clear(&mut self, slot: usize) -> Result<(), Error> {
        self.slots[slot] = None;
        self.cleared.borrow_mut().push(slot);
        Ok(())
    }
}

fn slotted(
    fault: Fault,
    capacity: usize,
    cleared: &RefCell<Vec<usize>>,
) -> SlottedBackend<CpuDriver<'_>> {
    let driver = CpuDriver {
        slots: [None, None],
        cleared,
        fault,
    };
    SlottedBackend::new(driver, GpuApi::Cuda, KeyLayout::Expanded, 32, capacity, 2)
        .ok()
        .unwrap()
}

#[test]
fn slotted_backends_expand_chains_and_collect_in_order() {
    let cleared = RefCell::new(vec![]);
    let mut backend = slotted(Fault::Nowhere, 128, &cleared);
    backend.self_test().unwrap();
    assert_eq!(*cleared.borrow(), [0, 1, 0]);
    assert_eq!((backend.inflight_capacity(), backend.increment_stride()), (2, 32));
    let keys = sequential_keys(107);
    let first = chain_starts(&keys[..70], 32);
    let second = chain_starts(&keys[70..], 32);
    backend.begin_batch(&first, 70).unwrap();
    backend.begin_batch(&second, 37).unwrap();
    assert_eq!(
        backend.begin_batch(&second, 37).err().unwrap().message(),
        "CUDA in-flight slots exhausted"
    );
    let mut out: Vec<Address> = vec![[0; 20]; 70];
    let mut wrong: Vec<Address> = vec![[0; 20]; 69];
    assert_eq!(
        backend.end_batch(&first, &mut wrong).err().unwrap().message(),
        "address count differs from the in-flight CUDA batch"
    );
    backend.end_batch(&first, &mut out).unwrap();
    for (index, address) in out.iter().enumerate() {
        assert_eq!(*address, derive_address(&keys[index]));
    }
    out.truncate(37);
    backend.end_batch(&second, &mut out).unwrap();
    for (index, address) in out.iter().enumerate() {
        assert_eq!(*address, derive_address(&chain_key(&second, 32, index).unwrap()));
    }
    assert_eq!(
        backend.end_batch(&second, &mut out).err().unwrap().message(),
        "no in-flight CUDA batch to collect"
    );
    assert_eq!(
        backend.begin_batch(&first, 129).err().unwrap().message(),
        "batch exceeds CUDA capacity"
    );
    assert_eq!(
        backend.begin_batch(&first, 64).err().unwrap().message(),
        "batch key count does not match address count"
    );
    backend.end_batch(&[], &mut []).unwrap();
}

#[test]
fn a_corrupt_device_fails_its_self_test() {
    assert_eq!(
        slotted(Fault::Corrupt, 64, &RefCell::new(vec![]))
            .self_test()
            .err()
            .unwrap()
            .message(),
        "GPU/CPU address verification failed"
    );
    assert!(run_self_test(&mut CpuBackend::new(), 8).is_ok());
    assert_eq!(
        check_capacity(GpuApi::Metal, 0).err().unwrap().message(),
        "invalid Metal batch capacity"
    );
}

#[test]
fn keys_are_wiped_from_the_device_whatever_it_answers() {
    let keys = sequential_keys(64);
    let starts = chain_starts(&keys, 32);
    for (fault, message) in [
        (Fault::Nowhere, ""),
        (Fault::Submit, "device lost"),
        (Fault::Wait, "device lost"),
        (Fault::Read, "device lost"),
        (Fault::Truncated, "device returned an unexpected number of address bytes"),
        (Fault::Corrupt, "GPU/CPU address verification failed"),
    ] {
        let cleared = RefCell::new(vec![]);
        let mut backend = slotted(fault, 64, &cleared);
        let mut out: Vec<Address> = vec![[0; 20]; 64];
        let result = backend.derive_batch(&starts, &mut out);
        match result {
            Ok(()) => assert!(fault == Fault::Nowhere),
            Err(e) => assert_eq!(e.message(), message),
        }
        assert_eq!(*cleared.borrow(), [0]);
    }
}

#[test]
fn startup_vectors_are_one_the_last_and_a_chain() {
    let batches = gpu_self_test_batches(32, 1000).unwrap();
    assert_eq!(batches.len(), 3);
    assert!(batches[0] == vec![scalar(1)]);
    assert!(increment_secret_key(&batches[1][0]).is_none());
    assert_eq!(batches[2].len(), 32);
    assert!(batches[2][0] == scalar(32) && batches[2][31] == scalar(63));
    assert_eq!(gpu_self_test_batches(1, 1).unwrap()[2].len(), 1);
    assert!(gpu_self_test_batches(1, 2).unwrap()[2] == vec![scalar(2), scalar(3)]);
    assert!(gpu_self_test_batches(256, 300).is_err());
    let addresses: Vec<Address> = batches[2].iter().map(derive_address).collect();
    assert!(check_self_test_batch(&batches[2], &addresses).is_ok());
    assert!(check_self_test_batch(&batches[0], &addresses).is_err());
}

#[test]
fn uploads_and_downloads_have_fixed_layouts() {
    let keys = sequential_keys(40);
    let starts = chain_starts(&keys, 32);
    let mut packed = prepare_upload(KeyLayout::Starts, &starts, 32, 40).unwrap();
    assert_eq!(packed.len(), 64);
    assert_eq!(packed[32..], starts[1].secret_bytes());
    erase_upload(&mut packed);
    assert_eq!(packed, vec![0; 64]);
    let expanded = prepare_upload(KeyLayout::Expanded, &starts, 32, 40).unwrap();
    assert_eq!(expanded.len(), 40 * 32);
    assert_eq!(expanded[39 * 32..], keys[39].secret_bytes());
    let bytes: Vec<u8> = (0..40).collect();
    let mut addresses: Vec<Address> = vec![[0; 20]; 2];
    unpack_addresses(&bytes, &mut addresses).unwrap();
    assert_eq!(addresses[1][..], bytes[20..]);
    assert!(unpack_addresses(&bytes[..39], &mut addresses).is_err());
}

#[test]
fn the_cpu_backend_takes_one_key_per_address() {
    let mut cpu = CpuBackend::new();
    let keys = sequential_keys(3);
    let mut addresses: Vec<Address> = vec![[0; 20]; 3];
    cpu.derive_batch(&keys, &mut addresses).unwrap();
    assert_eq!(addresses[2], derive_address(&keys[2]));
    assert_eq!(
        cpu.derive_batch(&keys[..2], &mut addresses).err().unwrap().message(),
        "batch input/output lengths differ"
    );
    assert_eq!((cpu.inflight_capacity(), cpu.increment_stride()), (1, 1));
    assert_eq!(
        cpu.begin_batch(&keys, 3).err().unwrap().message(),
        "begin_batch is GPU-only"
    );
}
