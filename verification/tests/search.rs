//! The search loops, on the CPU backend and on backends that misbehave.
use crossbeam::channel;
use std::sync::atomic::{AtomicBool, AtomicU64, Ordering};
use vanity_rs::address::{derive_address, Address};
use vanity_rs::backend::{AddressBackend, CpuBackend, MAX_GPU_BATCH_SIZE};
use vanity_rs::best::BestState;
use vanity_rs::counter::crossed_report_threshold;
use vanity_rs::entropy::{generate_chain_start, generate_secret_key, KeyRng, SeededRng};
use vanity_rs::error::Error;
use vanity_rs::hex::{address_nibbles, nibbles_to_hex, sk_to_hex};
use vanity_rs::judge::{assess_batch, judge_batch};
use vanity_rs::pipeline::{PipelineSource, PreparedBatch};
use vanity_rs::queue::{Inbox, Outbox};
use vanity_rs::scalar::SecretKey;
use vanity_rs::search::{
    run_with_rng, run_with_source, run_worker, HitRecord, Progress, ProgressSink,
};
use vanity_rs::source::{clone_key_batch, fill_secret_keys, KeyBatch};
use vanity_rs::target::Targets;
use vanity_rs::worker::WorkerContext;

struct Reports(Vec<Progress>);

impl ProgressSink for Reports {
    fn report(&mut self, progress: Progress) {
        self.0.push(progress);
    }
}

enum Behavior<'a> {
    Correct,
    CorruptHit,
    CorruptBest,
    Fail,
    Cancel(&'a AtomicBool),
}

struct TestBackend<'a> {
    cpu: CpuBackend,
    behavior: Behavior<'a>,
    calls: usize,
}

impl AddressBackend for TestBackend<'_> {
    fn derive_batch(&mut self, keys: &[SecretKey], addresses: &mut [Address]) -> Result<(), Error> {
        self.calls += 1;
        if matches!(self.behavior, Behavior::Fail) {
            return Err(Error::Reported("injected compute failure".into()));
        }
        self.cpu.derive_batch(keys, addresses)?;
        match self.behavior {
            Behavior::CorruptHit => addresses[0] = [0xab; 20],
            Behavior::CorruptBest => {
                *addresses.last_mut().unwrap() = [0xaa; 20];
                addresses.last_mut().unwrap()[19] = 0xab;
            }
            Behavior::Cancel(stop) => stop.store(true, Ordering::Relaxed),
            _ => (),
        }
        Ok(())
    }

    fn begin_batch(&mut self, _: &[SecretKey], _: usize) -> Result<(), Error> {
        Err(Error::BeginUnsupported)
    }

    fn end_batch(&mut self, keys: &[SecretKey], addresses: &mut [Address]) -> Result<(), Error> {
        self.derive_batch(keys, addresses)
    }
}

#[test]
fn batch_completion_counts_work_beyond_first_hit_and_reports_crossed_threshold() {
    let mut backend = TestBackend {
        cpu: CpuBackend::new(),
        behavior: Behavior::Correct,
        calls: 0,
    };
    let stop = AtomicBool::new(false);
    let total = AtomicU64::new(0);
    let best = BestState::default();
    let (updates, _receiver) = channel::bounded(1);
    let mut reports = Reports(vec![]);
    let hit = run_with_rng(
        &mut backend,
        8,
        &mut WorkerContext::new(0, &stop, &total, &best, &updates, &Targets::default(), 5),
        &mut reports,
        &mut SeededRng::from_seed(&[17; 32]),
    )
    .unwrap()
    .unwrap();
    assert_eq!(hit.tries, 1);
    assert_eq!(total.load(Ordering::Relaxed), 8);
    assert_eq!(reports.0.len(), 1);
    assert_eq!((reports.0[0].completed, reports.0[0].total), (8, 8));
    assert!(stop.load(Ordering::Relaxed));
    assert_eq!(backend.calls, 1);
    assert!(!crossed_report_threshold(8, 9, 5));
    assert!(crossed_report_threshold(8, 16, 5));
    assert!(!crossed_report_threshold(0, 16, 0));
}

#[test]
fn compute_and_verification_errors_never_publish_candidates() {
    for behavior in [Behavior::Fail, Behavior::CorruptHit, Behavior::CorruptBest] {
        let targets = if matches!(behavior, Behavior::CorruptBest) {
            Targets {
                prefix: vec![10; 40],
                suffix: vec![],
            }
        } else {
            Targets::default()
        };
        let mut backend = TestBackend {
            cpu: CpuBackend::new(),
            behavior,
            calls: 0,
        };
        let stop = AtomicBool::new(false);
        let total = AtomicU64::new(0);
        let best = BestState::default();
        let (updates, receiver) = channel::bounded(1);
        let result = run_with_rng(
            &mut backend,
            8,
            &mut WorkerContext::new(0, &stop, &total, &best, &updates, &targets, 0),
            &mut Reports(vec![]),
            &mut SeededRng::from_seed(&[17; 32]),
        );
        assert!(result.is_err());
        assert!(stop.load(Ordering::Relaxed));
        assert!(best.snapshot().is_none());
        assert!(receiver.try_recv().is_err());
        assert_eq!(backend.calls, 1);
    }
}

#[test]
fn cancellation_before_and_during_batch_does_not_publish_a_hit() {
    for already_cancelled in [true, false] {
        let stop = AtomicBool::new(already_cancelled);
        let mut backend = TestBackend {
            cpu: CpuBackend::new(),
            behavior: Behavior::Cancel(&stop),
            calls: 0,
        };
        let total = AtomicU64::new(0);
        let best = BestState::default();
        let (updates, receiver) = channel::bounded(1);
        let result = run_with_rng(
            &mut backend,
            8,
            &mut WorkerContext::new(0, &stop, &total, &best, &updates, &Targets::default(), 0),
            &mut Reports(vec![]),
            &mut SeededRng::from_seed(&[17; 32]),
        )
        .unwrap();
        assert!(result.is_none());
        assert_eq!(backend.calls, usize::from(!already_cancelled));
        assert_eq!(
            total.load(Ordering::Relaxed),
            if already_cancelled { 0 } else { 8 }
        );
        assert!(best.snapshot().is_none());
        assert!(receiver.try_recv().is_err());
    }
}

fn search<B: AddressBackend, R: KeyRng>(
    backend: &mut B,
    batch: usize,
    targets: &Targets,
    rng: &mut R,
) -> (Result<Option<HitRecord>, Error>, u64, BestState, usize) {
    let stop = AtomicBool::new(false);
    let total = AtomicU64::new(0);
    let best = BestState::verified();
    let (updates, receiver) = channel::bounded(1);
    let result = run_with_rng(
        backend,
        batch,
        &mut WorkerContext::new(7, &stop, &total, &best, &updates, targets, 0),
        &mut Reports(vec![]),
        rng,
    );
    assert!(stop.load(Ordering::Relaxed));
    (result, total.load(Ordering::Relaxed), best, receiver.len())
}

#[test]
fn a_hit_names_the_key_of_the_first_address_that_matches() {
    let mut rng = SeededRng::from_seed(&[23; 32]);
    let keys: Vec<SecretKey> = (0..40)
        .map(|_| generate_secret_key(&mut rng).unwrap())
        .collect();
    let wanted = address_nibbles(&derive_address(&keys[21]));
    let targets = Targets {
        prefix: wanted[..4].to_vec(),
        suffix: wanted[36..].to_vec(),
    };
    let (result, total, best, updates) = search(
        &mut CpuBackend::new(),
        8,
        &targets,
        &mut SeededRng::from_seed(&[23; 32]),
    );
    let hit = result.unwrap().unwrap();
    assert_eq!(hit.address, nibbles_to_hex(&wanted));
    assert_eq!(hit.private_key, sk_to_hex(&keys[21]));
    assert_eq!((hit.tries, hit.worker_id, total), (22, 7, 24));
    assert!(hit.elapsed.nanos < 1_000_000_000);
    assert!(hit.ts_utc.contains('T'));
    let closest = best.snapshot().unwrap();
    assert_eq!((closest.score, closest.tries), (8, 22));
    assert_eq!(closest.private_key, hit.private_key);
    assert_eq!(updates, 1);
}

#[test]
fn batch_sizes_outside_the_range_are_refused() {
    for size in [0, MAX_GPU_BATCH_SIZE as usize + 1] {
        let (result, total, _, _) = search(
            &mut CpuBackend::new(),
            size,
            &Targets::default(),
            &mut SeededRng::from_seed(&[1; 32]),
        );
        assert_eq!(result.err().unwrap().message(), "invalid search batch size");
        assert_eq!(total, 0);
    }
}

#[test]
fn a_worker_seeds_itself() {
    let stop = AtomicBool::new(false);
    let total = AtomicU64::new(0);
    let best = BestState::verified();
    let (updates, _receiver) = channel::bounded(1);
    let hit = run_worker(
        &mut CpuBackend::new(),
        1,
        &mut WorkerContext::new(
            3,
            &stop,
            &total,
            &best,
            &updates,
            &Targets { prefix: vec![4], suffix: vec![] },
            0,
        ),
        &mut Reports(vec![]),
    )
    .unwrap()
    .unwrap();
    assert!(hit.address.starts_with("0x4"));
    assert_eq!(hit.worker_id, 3);
    assert_eq!(hit.tries, total.load(Ordering::Relaxed));
}

/// Chains of four, two batches in flight, collected in order.
struct Chained {
    queue: Vec<(Vec<SecretKey>, usize)>,
    most: usize,
    ended: usize,
}

impl AddressBackend for Chained {
    fn derive_batch(&mut self, keys: &[SecretKey], addresses: &mut [Address]) -> Result<(), Error> {
        self.begin_batch(keys, addresses.len())?;
        self.end_batch(keys, addresses)
    }

    fn inflight_capacity(&self) -> usize {
        2
    }

    fn increment_stride(&self) -> usize {
        4
    }

    fn begin_batch(&mut self, keys: &[SecretKey], count: usize) -> Result<(), Error> {
        self.queue.push((keys.to_vec(), count));
        self.most = self.most.max(self.queue.len());
        Ok(())
    }

    fn end_batch(&mut self, keys: &[SecretKey], addresses: &mut [Address]) -> Result<(), Error> {
        let (starts, count) = self.queue.remove(0);
        assert!(starts == keys);
        assert_eq!(count, addresses.len());
        self.ended += 1;
        for (index, address) in addresses.iter_mut().enumerate() {
            *address = derive_address(&vanity_rs::chain::chain_key(&starts, 4, index).unwrap());
        }
        Ok(())
    }
}

#[test]
fn batches_in_flight_are_judged_in_order_and_drained_after_a_hit() {
    let mut rng = SeededRng::from_seed(&[29; 32]);
    let starts: Vec<SecretKey> = (0..12)
        .map(|_| generate_chain_start(&mut rng, 4).unwrap())
        .collect();
    // Ten addresses take three starts; address 7 of the second batch.
    let key = vanity_rs::chain::chain_key(&starts[3..6], 4, 7).unwrap();
    let wanted = address_nibbles(&derive_address(&key));
    let targets = Targets {
        prefix: wanted[..6].to_vec(),
        suffix: vec![],
    };
    let mut backend = Chained {
        queue: vec![],
        most: 0,
        ended: 0,
    };
    let (result, total, best, _) = search(
        &mut backend,
        10,
        &targets,
        &mut SeededRng::from_seed(&[29; 32]),
    );
    let hit = result.unwrap().unwrap();
    assert_eq!(hit.private_key, sk_to_hex(&key));
    assert_eq!((hit.tries, total), (18, 30));
    assert_eq!((backend.most, backend.ended, backend.queue.len()), (2, 3, 0));
    assert_eq!(best.snapshot().unwrap().private_key, hit.private_key);
}

#[test]
fn batches_in_flight_at_a_hit_still_count() {
    let mut backend = Chained {
        queue: vec![],
        most: 0,
        ended: 0,
    };
    let (result, total, _, _) = search(
        &mut backend,
        8,
        &Targets::default(),
        &mut SeededRng::from_seed(&[17; 32]),
    );
    assert_eq!(result.unwrap().unwrap().tries, 1);
    assert_eq!((backend.most, backend.ended, total), (2, 2, 16));
}

/// Takes any number of keys, and finds a match at the end of the batch.
struct Tolerant;

impl AddressBackend for Tolerant {
    fn derive_batch(&mut self, _: &[SecretKey], addresses: &mut [Address]) -> Result<(), Error> {
        *addresses.last_mut().unwrap() = [0xaa; 20];
        Ok(())
    }

    fn begin_batch(&mut self, _: &[SecretKey], _: usize) -> Result<(), Error> {
        Err(Error::BeginUnsupported)
    }

    fn end_batch(&mut self, keys: &[SecretKey], addresses: &mut [Address]) -> Result<(), Error> {
        self.derive_batch(keys, addresses)
    }
}

fn search_short<B: AddressBackend>(backend: &mut B) -> (String, u64) {
    let targets = Targets {
        prefix: vec![10; 40],
        suffix: vec![],
    };
    let stop = AtomicBool::new(false);
    let total = AtomicU64::new(0);
    let best = BestState::verified();
    let (updates, _receiver) = channel::bounded(1);
    let key = generate_secret_key(&mut SeededRng::from_seed(&[3; 32])).unwrap();
    let (ready_tx, ready_rx) = channel::bounded(1);
    let (recycle_tx, _recycle_rx) = channel::bounded(1);
    let short = PreparedBatch {
        sequence: 0,
        keys: KeyBatch(vec![key; 3]),
    };
    assert!(ready_tx.send(short).is_ok());
    let result = run_with_source(
        backend,
        8,
        &mut WorkerContext::new(0, &stop, &total, &best, &updates, &targets, 0),
        &mut Reports(vec![]),
        &mut PipelineSource::new(Inbox::new(ready_rx), Outbox::new(recycle_tx)),
    );
    (result.err().unwrap().message(), total.load(Ordering::Relaxed))
}

#[test]
fn the_backend_decides_on_batches_of_the_wrong_size() {
    assert_eq!(
        search_short(&mut CpuBackend::new()),
        (Error::BatchLengths.message(), 0)
    );
    assert_eq!(
        search_short(&mut Tolerant),
        (Error::IndexOutsideBatch.message(), 8)
    );
}

#[test]
fn keys_are_drawn_in_order_and_wiped() {
    let mut batch = KeyBatch(vec![]);
    fill_secret_keys(&mut SeededRng::from_seed(&[3; 32]), &mut batch, 5, 1).unwrap();
    let mut rng = SeededRng::from_seed(&[3; 32]);
    for key in &batch.0 {
        assert!(*key == generate_secret_key(&mut rng).unwrap());
    }
    let copy = clone_key_batch(&batch.0);
    assert!(copy.0 == batch.0);
    batch.wipe();
    assert!(batch.0.iter().all(|key| key.secret_bytes() == [1; 32]));
}

#[test]
fn a_batch_is_judged_whole() {
    let mut rng = SeededRng::from_seed(&[31; 32]);
    let keys: Vec<SecretKey> = (0..4)
        .map(|_| generate_secret_key(&mut rng).unwrap())
        .collect();
    let mut addresses: Vec<Address> = keys.iter().map(derive_address).collect();
    let targets = Targets {
        prefix: address_nibbles(&addresses[2])[..5].to_vec(),
        suffix: vec![],
    };
    let found = assess_batch::<TestBackend>(&keys, 1, &addresses, &targets).unwrap();
    assert_eq!(found.hit.as_ref().unwrap().index, 2);
    assert!(found.hit.unwrap().key == keys[2]);
    let proposal = found.best.unwrap();
    assert_eq!((proposal.candidate.index, proposal.candidate.prefix), (2, 5));
    assert!(proposal.key == keys[2]);
    addresses[2][19] ^= 1;
    assert_eq!(
        assess_batch::<TestBackend>(&keys, 1, &addresses, &targets).err().unwrap().message(),
        "GPU/CPU address verification failed"
    );
    let stop = AtomicBool::new(false);
    let total = AtomicU64::new(0);
    let best = BestState::verified();
    let (updates, receiver) = channel::bounded(1);
    let mut context = WorkerContext::new(0, &stop, &total, &best, &updates, &targets, 0);
    assert!(judge_batch::<TestBackend>(&keys, 1, &addresses, 0, &mut context).is_err());
    assert!(best.snapshot().is_none());
    assert!(receiver.is_empty());
    addresses[2][19] ^= 1;
    let hit = judge_batch::<TestBackend>(&keys, 1, &addresses, 100, &mut context).unwrap();
    assert_eq!(hit.unwrap().index, 2);
    assert_eq!(best.snapshot().unwrap().tries, 103);
    assert_eq!(receiver.len(), 1);
}
