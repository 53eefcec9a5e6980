//! Queues between the producer, the searching thread and the main thread.
use crossbeam::channel;
use std::sync::atomic::{AtomicBool, AtomicU64, Ordering};
use vanity_rs::address::{derive_address, Address};
use vanity_rs::backend::{AddressBackend, CpuBackend};
use vanity_rs::best::BestState;
use vanity_rs::clock::{timestamp_text, utc_timestamp, Elapsed};
use vanity_rs::entropy::{generate_secret_key, KeyRng, SeededRng};
use vanity_rs::error::Error;
use vanity_rs::events::{
    finish, handle_event, receive_hit, ClosestKeeper, Handled, SearchEvent, SearchQueues,
};
use vanity_rs::hex::{address_nibbles, sk_to_hex};
use vanity_rs::pipeline::{
    accept_sequence, after_offer, after_receive, check_pipeline_batch, prepare_batch, prepare_keys,
    produce, receive, send, settle, uses_pipeline, Discard, PipelineSource, PreparedBatch,
    ProducerEnd, SendStep, MIN_PIPELINED_BATCH,
};
use vanity_rs::queue::{Inbox, Offered, Outbox, Received};
use vanity_rs::scalar::SecretKey;
use vanity_rs::search::{run_with_rng, run_with_source, HitRecord, Progress, ProgressSink};
use vanity_rs::source::{KeyBatch, KeySource};
use vanity_rs::target::Targets;
use vanity_rs::worker::{StopWatch, WorkerContext};

struct Reports(Vec<Progress>);

impl ProgressSink for Reports {
    fn report(&mut self, progress: Progress) {
        self.0.push(progress);
    }
}

fn prepared(sequence: u64, count: usize, rng: &mut SeededRng) -> PreparedBatch {
    let stop = AtomicBool::new(false);
    let mut batch = PreparedBatch::new();
    assert!(prepare_keys(rng, &mut batch.keys, count, 1, &mut StopWatch::new(&stop)).unwrap());
    batch.sequence = sequence;
    batch
}

/// Searches with one prepared batch in the queue.
fn exercise<B: AddressBackend>(
    backend: &mut B,
    count: usize,
    stop: &AtomicBool,
    targets: &Targets,
) -> (Result<Option<HitRecord>, Error>, u64, BestState, Reports, usize) {
    let total = AtomicU64::new(0);
    let best = BestState::default();
    let (updates, receiver) = channel::bounded(1);
    let (ready_tx, ready_rx) = channel::bounded(1);
    let (recycle_tx, _recycle_rx) = channel::bounded(2);
    ready_tx
        .send(prepared(0, count, &mut SeededRng::from_seed(&[17; 32])))
        .unwrap();
    let mut source = PipelineSource::new(Inbox::new(ready_rx), Outbox::new(recycle_tx));
    let mut reports = Reports(vec![]);
    let result = run_with_source(
        backend,
        count,
        &mut WorkerContext::new(0, stop, &total, &best, &updates, targets, 1),
        &mut reports,
        &mut source,
    );
    assert!(stop.load(Ordering::Relaxed));
    let waiting = receiver.len();
    (result, total.load(Ordering::Relaxed), best, reports, waiting)
}

#[test]
fn pipelined_hits_preserve_empty_odd_and_overlapping_targets() {
    for mode in 0..3 {
        let first = generate_secret_key(&mut SeededRng::from_seed(&[17; 32])).unwrap();
        let nibs = address_nibbles(&derive_address(&first));
        let targets = match mode {
            0 => Targets::default(),
            1 => Targets {
                prefix: nibs[..3].to_vec(),
                suffix: nibs[37..].to_vec(),
            },
            _ => Targets {
                prefix: nibs.to_vec(),
                suffix: nibs.to_vec(),
            },
        };
        let stop = AtomicBool::new(false);
        let (result, total, _, reports, _) =
            exercise(&mut CpuBackend::new(), 8, &stop, &targets);
        let hit = result.unwrap().unwrap();
        assert_eq!((hit.tries, hit.worker_id, total), (1, 0, 8));
        assert_eq!((reports.0.len(), reports.0[0].completed), (1, 8));
    }
}

#[test]
fn keys_prepared_ahead_lead_to_the_same_hit() {
    let mut rng = SeededRng::from_seed(&[23; 32]);
    let wanted = (0..22)
        .map(|_| generate_secret_key(&mut rng).unwrap())
        .last()
        .unwrap();
    let targets = Targets {
        prefix: address_nibbles(&derive_address(&wanted))[..8].to_vec(),
        suffix: vec![],
    };
    let (ready_tx, ready_rx) = channel::bounded(4);
    let (recycle_tx, _recycle_rx) = channel::bounded(4);
    let mut ahead = SeededRng::from_seed(&[23; 32]);
    for number in 0..4 {
        ready_tx.send(prepared(number, 8, &mut ahead)).unwrap();
    }
    let mut hits = vec![];
    for pipelined in [true, false] {
        let stop = AtomicBool::new(false);
        let total = AtomicU64::new(0);
        let best = BestState::verified();
        let (updates, _receiver) = channel::bounded(1);
        let mut context = WorkerContext::new(0, &stop, &total, &best, &updates, &targets, 0);
        let mut backend = CpuBackend::new();
        let result = if pipelined {
            let mut source =
                PipelineSource::new(Inbox::new(ready_rx.clone()), Outbox::new(recycle_tx.clone()));
            run_with_source(&mut backend, 8, &mut context, &mut Reports(vec![]), &mut source)
        } else {
            run_with_rng(
                &mut backend,
                8,
                &mut context,
                &mut Reports(vec![]),
                &mut SeededRng::from_seed(&[23; 32]),
            )
        };
        let hit = result.unwrap().unwrap();
        assert_eq!(total.load(Ordering::Relaxed), 24);
        hits.push((hit.tries, hit.address, hit.private_key));
    }
    assert_eq!(hits[0], hits[1]);
    assert_eq!((hits[0].0, &hits[0].2), (22, &sk_to_hex(&wanted)));
}

/// Derives so many batches, then fails.
struct Tiring {
    cpu: CpuBackend,
    left: usize,
}

impl AddressBackend for Tiring {
    fn derive_batch(&mut self, keys: &[SecretKey], addresses: &mut [Address]) -> Result<(), Error> {
        if self.left == 0 {
            return Err(Error::Reported("injected compute failure".into()));
        }
        self.left -= 1;
        self.cpu.derive_batch(keys, addresses)
    }

    fn begin_batch(&mut self, _: &[SecretKey], _: usize) -> Result<(), Error> {
        Err(Error::BeginUnsupported)
    }

    fn end_batch(&mut self, keys: &[SecretKey], addresses: &mut [Address]) -> Result<(), Error> {
        self.derive_batch(keys, addresses)
    }
}

#[test]
fn keys_prepared_ahead_fail_alike_after_as_many_attempts() {
    let targets = Targets {
        prefix: vec![10; 40],
        suffix: vec![],
    };
    let (ready_tx, ready_rx) = channel::bounded(4);
    let (recycle_tx, _recycle_rx) = channel::bounded(4);
    let mut ahead = SeededRng::from_seed(&[23; 32]);
    for number in 0..4 {
        ready_tx.send(prepared(number, 8, &mut ahead)).unwrap();
    }
    let mut ends = vec![];
    for pipelined in [true, false] {
        let stop = AtomicBool::new(false);
        let total = AtomicU64::new(0);
        let best = BestState::verified();
        let (updates, _receiver) = channel::bounded(1);
        let mut context = WorkerContext::new(0, &stop, &total, &best, &updates, &targets, 0);
        let mut backend = Tiring {
            cpu: CpuBackend::new(),
            left: 2,
        };
        let result = if pipelined {
            let mut source =
                PipelineSource::new(Inbox::new(ready_rx.clone()), Outbox::new(recycle_tx.clone()));
            run_with_source(&mut backend, 8, &mut context, &mut Reports(vec![]), &mut source)
        } else {
            run_with_rng(
                &mut backend,
                8,
                &mut context,
                &mut Reports(vec![]),
                &mut SeededRng::from_seed(&[23; 32]),
            )
        };
        let closest = best.snapshot().unwrap();
        assert_eq!(best.cached_score(), closest.score);
        ends.push((
            result.err().unwrap().message(),
            total.load(Ordering::Relaxed),
            closest.private_key,
        ));
    }
    assert_eq!(ends[0], ends[1]);
    assert_eq!((ends[0].0.as_str(), ends[0].1), ("injected compute failure", 16));
}

#[test]
fn compute_and_verification_errors_publish_nothing() {
    struct Failing(bool);
    impl AddressBackend for Failing {
        fn derive_batch(&mut self, _: &[SecretKey], addresses: &mut [Address]) -> Result<(), Error> {
            if self.0 {
                return Err(Error::Reported("injected compute failure".into()));
            }
            addresses.fill([0xab; 20]);
            Ok(())
        }

        fn begin_batch(&mut self, _: &[SecretKey], _: usize) -> Result<(), Error> {
            Err(Error::BeginUnsupported)
        }

        fn end_batch(&mut self, keys: &[SecretKey], addresses: &mut [Address]) -> Result<(), Error> {
            self.derive_batch(keys, addresses)
        }
    }
    for compute in [true, false] {
        let stop = AtomicBool::new(false);
        let (result, total, best, _, _) = exercise(
            &mut Failing(compute),
            8,
            &stop,
            &Targets {
                prefix: vec![10, 11],
                suffix: vec![],
            },
        );
        assert!(result.is_err());
        assert_eq!(total, if compute { 0 } else { 8 });
        assert!(best.snapshot().is_none());
    }
}

#[test]
fn cancellation_counts_only_completed_batches() {
    struct Cancel<'a>(&'a AtomicBool);
    impl AddressBackend for Cancel<'_> {
        fn derive_batch(&mut self, _: &[SecretKey], _: &mut [Address]) -> Result<(), Error> {
            self.0.store(true, Ordering::Relaxed);
            Ok(())
        }

        fn begin_batch(&mut self, _: &[SecretKey], _: usize) -> Result<(), Error> {
            Err(Error::BeginUnsupported)
        }

        fn end_batch(&mut self, keys: &[SecretKey], addresses: &mut [Address]) -> Result<(), Error> {
            self.derive_batch(keys, addresses)
        }
    }
    for already_stopped in [false, true] {
        let stop = AtomicBool::new(already_stopped);
        let (result, total, best, _, updates) =
            exercise(&mut Cancel(&stop), 33, &stop, &Targets::default());
        assert!(result.unwrap().is_none());
        assert_eq!(total, if already_stopped { 0 } else { 33 });
        assert_eq!(updates, 0);
        assert!(best.snapshot().is_none());
    }
}

#[test]
fn preparation_cancels_at_the_next_1024_key_boundary() {
    struct CancellingRng<'a> {
        generated: &'a AtomicU64,
        stop: &'a AtomicBool,
    }
    impl KeyRng for CancellingRng<'_> {
        fn fill_bytes(&mut self, bytes: &mut [u8; 32]) {
            bytes.fill(0);
            bytes[31] = 1;
            if self.generated.fetch_add(1, Ordering::Relaxed) + 1 == 1024 {
                self.stop.store(true, Ordering::Relaxed);
            }
        }
    }
    let stop = AtomicBool::new(false);
    let generated = AtomicU64::new(0);
    let (recycle_tx, recycle_rx) = channel::bounded(2);
    let (ready_tx, ready_rx) = channel::bounded(1);
    recycle_tx.send(PreparedBatch::new()).unwrap();
    produce(
        &mut Inbox::new(recycle_rx),
        &mut Outbox::new(ready_tx),
        &stop,
        2048,
        1,
        &mut CancellingRng {
            generated: &generated,
            stop: &stop,
        },
    )
    .unwrap();
    assert_eq!(generated.load(Ordering::Relaxed), 1024);
    assert!(ready_rx.try_recv().is_err());
}

#[test]
fn out_of_order_and_disconnected_batches_fail() {
    let stop = AtomicBool::new(false);
    let (ready, rx) = channel::bounded(1);
    let (recycle, _) = channel::bounded(2);
    ready
        .send(PreparedBatch {
            sequence: 1,
            keys: KeyBatch(vec![]),
        })
        .unwrap();
    let mut source = PipelineSource::new(Inbox::new(rx), Outbox::new(recycle));
    assert!(source.next(&stop).is_err());
    let (tx, rx) = channel::bounded::<()>(1);
    drop(tx);
    assert!(receive(&mut Inbox::new(rx), &stop).is_err());
}

#[test]
fn batches_go_round_in_order() {
    let stop = AtomicBool::new(false);
    let mut rng = SeededRng::from_seed(&[19; 32]);
    let mut expected = SeededRng::from_seed(&[19; 32]);
    let (ready_tx, ready_rx) = channel::bounded(1);
    let (recycle_tx, recycle_rx) = channel::bounded(2);
    let mut source = PipelineSource::new(Inbox::new(ready_rx), Outbox::new(recycle_tx));
    let mut batch = PreparedBatch::new();
    for sequence in 0..5 {
        let mut watch = StopWatch::new(&stop);
        assert!(prepare_keys(&mut rng, &mut batch.keys, 33, 1, &mut watch).unwrap());
        batch.sequence = sequence;
        ready_tx.send(batch).unwrap();
        let keys = source.next(&stop).unwrap().unwrap();
        assert_eq!(keys.len(), 33);
        for key in keys {
            assert!(*key == generate_secret_key(&mut expected).unwrap());
        }
        assert_eq!(
            source.next(&stop).err().unwrap().message(),
            "batch not recycled"
        );
        source.recycle(&stop).unwrap();
        batch = recycle_rx.try_recv().unwrap();
    }
}

#[test]
fn full_and_empty_queues_stop_without_drain() {
    let stop = AtomicBool::new(true);
    let (tx, rx) = channel::bounded(1);
    let mut inbox = Inbox::new(rx.clone());
    let mut outbox = Outbox::new(tx.clone());
    assert!(receive(&mut inbox, &stop).unwrap().is_none());
    tx.send(PreparedBatch::new()).unwrap();
    assert!(!send(&mut outbox, PreparedBatch::new(), &stop).unwrap());
    assert_eq!(rx.len(), 1);
    let running = AtomicBool::new(false);
    assert!(receive(&mut inbox, &running).unwrap().is_some());
    assert!(send(&mut outbox, PreparedBatch::new(), &running).unwrap());
    drop(inbox);
    drop(rx);
    assert_eq!(
        send(&mut outbox, PreparedBatch::new(), &running).err().unwrap().message(),
        "batch consumer disconnected unexpectedly"
    );
}

/// A generator that tells the search to stop at one of its draws.
struct StoppingRng<'a> {
    inner: SeededRng,
    drawn: u64,
    last: u64,
    stop: &'a AtomicBool,
}

impl KeyRng for StoppingRng<'_> {
    fn fill_bytes(&mut self, bytes: &mut [u8; 32]) {
        self.inner.fill_bytes(bytes);
        self.drawn += 1;
        if self.drawn == self.last {
            self.stop.store(true, Ordering::Relaxed);
        }
    }
}

/// Counts how often it was thrown away.
struct Counted<'a>(&'a AtomicU64);

impl Discard for Counted<'_> {
    fn discard(self) {
        self.0.fetch_add(1, Ordering::Relaxed);
    }
}

#[test]
fn a_wait_goes_on_until_something_comes_or_the_flag_is_raised() {
    let running = AtomicBool::new(false);
    let raised = AtomicBool::new(true);
    let later = channel::after(std::time::Duration::from_millis(45));
    let begun = std::time::Instant::now();
    assert!(receive(&mut Inbox::new(later), &running).unwrap().is_some());
    assert!(begun.elapsed() >= std::time::Duration::from_millis(45));
    assert!(receive(&mut Inbox::new(channel::never::<u8>()), &raised).unwrap().is_none());

    let cleared = AtomicU64::new(0);
    let (tx, rx) = channel::bounded(1);
    let mut outbox = Outbox::new(tx);
    assert!(send(&mut outbox, Counted(&cleared), &running).unwrap());
    assert_eq!(cleared.load(Ordering::Relaxed), 0);
    assert!(!send(&mut outbox, Counted(&cleared), &raised).unwrap());
    assert_eq!((cleared.load(Ordering::Relaxed), rx.len()), (1, 1));
    drop(rx);
    assert!(send(&mut outbox, Counted(&cleared), &running).is_err());
    assert_eq!(cleared.load(Ordering::Relaxed), 2);
}

#[test]
fn the_producer_sends_full_batches_in_the_order_of_the_draws() {
    let stop = AtomicBool::new(false);
    let (recycle_tx, recycle_rx) = channel::bounded(3);
    let (ready_tx, ready_rx) = channel::bounded(3);
    for _ in 0..3 {
        recycle_tx
            .send(prepared(9, 33, &mut SeededRng::from_seed(&[8; 32])))
            .unwrap();
    }
    let mut rng = StoppingRng {
        inner: SeededRng::from_seed(&[41; 32]),
        drawn: 0,
        last: 67,
        stop: &stop,
    };
    produce(
        &mut Inbox::new(recycle_rx),
        &mut Outbox::new(ready_tx),
        &stop,
        33,
        1,
        &mut rng,
    )
    .unwrap();
    assert!(stop.load(Ordering::Relaxed));
    let mut expected = SeededRng::from_seed(&[41; 32]);
    let sent: Vec<PreparedBatch> = ready_rx.try_iter().collect();
    assert_eq!(sent.len(), 2);
    for (number, batch) in sent.iter().enumerate() {
        assert_eq!((batch.sequence, batch.keys.0.len()), (number as u64, 33));
        for key in &batch.keys.0 {
            assert!(*key == generate_secret_key(&mut expected).unwrap());
        }
    }
}

#[test]
fn what_a_queue_gave_decides_what_is_done() {
    assert!(matches!(after_receive(Received::Value(7), true), Some(Ok(Some(7)))));
    assert!(after_receive::<u8>(Received::Timeout, false).is_none());
    assert!(matches!(after_receive::<u8>(Received::Timeout, true), Some(Ok(None))));
    assert!(matches!(after_receive::<u8>(Received::Disconnected, true), Some(Ok(None))));
    assert_eq!(
        after_receive::<u8>(Received::Disconnected, false).unwrap().err().unwrap().message(),
        "batch source disconnected unexpectedly"
    );
    assert!(matches!(after_offer::<u8>(Offered::Taken, true), SendStep::Taken));
    assert!(matches!(after_offer(Offered::Timeout(7), false), SendStep::Again(7)));
    assert!(matches!(
        after_offer(Offered::Timeout(7), true),
        SendStep::Lost(7, Ok(false))
    ));
    assert!(matches!(
        after_offer(Offered::Disconnected(7), true),
        SendStep::Lost(7, Ok(false))
    ));
    assert!(matches!(
        after_offer(Offered::Disconnected(7), false),
        SendStep::Lost(7, Err(_))
    ));
}

#[test]
fn prepared_batches_are_numbered_and_stopped_ones_are_not_sent() {
    let mut rng = SeededRng::from_seed(&[5; 32]);
    let mut again = SeededRng::from_seed(&[5; 32]);
    let running = AtomicBool::new(false);
    let mut watch = StopWatch::new(&running);
    let batch = prepare_batch(&mut rng, PreparedBatch::new(), 9, 3, 1, &mut watch)
        .unwrap()
        .unwrap();
    assert_eq!((batch.sequence, batch.keys.0.len()), (9, 3));
    for key in &batch.keys.0 {
        assert_eq!(sk_to_hex(key), sk_to_hex(&generate_secret_key(&mut again).unwrap()));
    }
    let stopped = AtomicBool::new(true);
    let mut watch = StopWatch::new(&stopped);
    assert!(prepare_batch(&mut rng, batch, 10, 3, 1, &mut watch).unwrap().is_none());
}

#[test]
fn a_raised_flag_stops_preparation_before_any_draw() {
    let stopped = AtomicBool::new(true);
    let mut rng = SeededRng::from_seed(&[5; 32]);
    let mut keys = KeyBatch(vec![]);
    assert!(!prepare_keys(&mut rng, &mut keys, 2000, 1, &mut StopWatch::new(&stopped)).unwrap());
    assert!(keys.0.is_empty());
    let mut again = SeededRng::from_seed(&[5; 32]);
    assert!(generate_secret_key(&mut rng).unwrap() == generate_secret_key(&mut again).unwrap());
    let running = AtomicBool::new(false);
    assert!(prepare_keys(&mut rng, &mut keys, 2000, 1, &mut StopWatch::new(&running)).unwrap());
    assert_eq!(keys.0.len(), 2000);
    for key in &keys.0 {
        assert!(*key == generate_secret_key(&mut again).unwrap());
    }
}

#[test]
fn batch_numbers_are_accepted_in_turn() {
    assert_eq!(accept_sequence(4, 4).unwrap(), 5);
    assert_eq!(
        accept_sequence(4, 5).err().unwrap().message(),
        "prepared batch order mismatch"
    );
    assert_eq!(
        accept_sequence(u64::MAX, u64::MAX).err().unwrap().message(),
        "batch sequence overflow"
    );
}

#[test]
fn producer_failures_come_before_a_hit() {
    assert_eq!(
        settle(ProducerEnd::Panicked, Ok(Some(hit_record()))).err().unwrap().message(),
        "private-key producer panicked"
    );
    assert_eq!(
        settle(
            ProducerEnd::Finished(Err(Error::NoEntropy)),
            Ok(Some(hit_record()))
        )
        .err()
        .unwrap()
        .message(),
        "cannot seed search CSPRNG"
    );
    assert!(settle(ProducerEnd::Finished(Ok(())), Ok(Some(hit_record())))
        .unwrap()
        .is_some());
}

#[test]
fn large_batches_are_drawn_ahead() {
    assert!(uses_pipeline(MIN_PIPELINED_BATCH));
    assert!(!uses_pipeline(65_535));
    assert!(check_pipeline_batch(262_144).is_ok());
    assert_eq!(
        check_pipeline_batch(0).err().unwrap().message(),
        "invalid pipeline batch size"
    );
}

fn hit_record() -> HitRecord {
    HitRecord {
        address: format!("0x{}", "ab".repeat(20)),
        private_key: "0x01".into(),
        tries: 42,
        elapsed: Elapsed {
            secs: 0,
            nanos: 100_000_000,
        },
        worker_id: 0,
        ts_utc: "2026-08-27T00:00:00Z".into(),
    }
}

#[test]
fn no_error_is_hidden_by_a_hit() {
    let failed = |text: &str| Error::Reported(text.into());
    let end = finish(
        Err(failed("first")),
        vec![Err(failed("second"))],
        Err(failed("third")),
    );
    assert_eq!(end.err().unwrap().message(), "first");
    let end = finish(
        Ok(Some(hit_record())),
        vec![Ok(hit_record()), Err(failed("second")), Err(failed("later"))],
        Err(failed("third")),
    );
    assert_eq!(end.err().unwrap().message(), "second");
    let end = finish(Ok(Some(hit_record())), vec![Ok(hit_record())], Err(failed("third")));
    assert_eq!(end.err().unwrap().message(), "third");
    let end = finish(Ok(Some(hit_record())), vec![Ok(hit_record())], Ok(()));
    assert_eq!(end.unwrap().unwrap().tries, 42);
    assert!(finish(Ok(None), vec![], Ok(())).unwrap().is_none());
}

struct Keeper<F: FnMut() -> Result<(), Error>>(F);

impl<F: FnMut() -> Result<(), Error>> ClosestKeeper for Keeper<F> {
    fn save_closest(&mut self) -> Result<(), Error> {
        (self.0)()
    }
}

#[test]
fn receiving_a_compute_error_preserves_the_error() {
    let (hit_tx, hit_rx) = channel::unbounded();
    let (_updates, update_rx) = channel::bounded(1);
    hit_tx
        .send(Err(Error::Reported("GPU execution failed".into())))
        .unwrap();
    let result = receive_hit(&mut SearchQueues::new(&hit_rx, &update_rx), &mut Keeper(|| Ok(())));
    assert_eq!(result.err().unwrap().message(), "GPU execution failed");
}

#[test]
fn receiving_a_hit_services_pending_snapshot_notifications() {
    let (hit_tx, hit_rx) = channel::bounded(1);
    let (update_tx, update_rx) = channel::bounded(1);
    update_tx.send(()).unwrap();
    let mut saves = 0;
    let hit = receive_hit(
        &mut SearchQueues::new(&hit_rx, &update_rx),
        &mut Keeper(|| {
            saves += 1;
            hit_tx.send(Ok(hit_record())).unwrap();
            Ok(())
        }),
    )
    .unwrap()
    .unwrap();
    assert_eq!(saves, 1);
    assert_eq!(hit.address, hit_record().address);
}

#[test]
fn receiving_a_hit_propagates_snapshot_errors() {
    let (_hit_tx, hit_rx) = channel::bounded(1);
    let (update_tx, update_rx) = channel::bounded(1);
    update_tx.send(()).unwrap();
    let result = receive_hit(
        &mut SearchQueues::new(&hit_rx, &update_rx),
        &mut Keeper(|| Err(Error::Reported("write failed".into()))),
    );
    assert_eq!(result.err().unwrap().message(), "write failed");
}

#[test]
fn closed_notification_channel_does_not_lose_a_hit() {
    let (hit_tx, hit_rx) = channel::bounded(1);
    let (update_tx, update_rx) = channel::bounded(1);
    drop(update_tx);
    hit_tx.send(Ok(hit_record())).unwrap();
    assert!(
        receive_hit(&mut SearchQueues::new(&hit_rx, &update_rx), &mut Keeper(|| unreachable!()))
            .unwrap()
            .is_some()
    );
    drop(hit_tx);
    assert!(
        receive_hit(&mut SearchQueues::new(&hit_rx, &update_rx), &mut Keeper(|| unreachable!()))
            .unwrap()
            .is_none()
    );
}

#[test]
fn the_closest_candidate_is_kept_on_improvements_alone() {
    let mut saves = 0;
    let mut keeper = Keeper(|| {
        saves += 1;
        Ok(())
    });
    assert!(matches!(
        handle_event(SearchEvent::Improved, &mut keeper),
        Handled::GoOn
    ));
    assert!(matches!(
        handle_event(SearchEvent::ImprovementsGone, &mut keeper),
        Handled::WaitForEnd
    ));
    assert!(matches!(
        handle_event(SearchEvent::AllGone, &mut keeper),
        Handled::Done(Ok(None))
    ));
    assert!(matches!(
        handle_event(SearchEvent::Ended(Ok(hit_record())), &mut keeper),
        Handled::Done(Ok(Some(_)))
    ));
    assert_eq!(saves, 1);
    let mut failing = Keeper(|| Err(Error::Reported("write failed".into())));
    assert!(matches!(
        handle_event(SearchEvent::Improved, &mut failing),
        Handled::Done(Err(_))
    ));
}

#[test]
fn timestamps_are_rfc_3339_or_na() {
    assert_eq!(timestamp_text(None), "NA");
    assert_eq!(timestamp_text(Some("x".into())), "x");
    let now = utc_timestamp();
    assert!(now.ends_with('Z') && now.contains('T'));
}
