//! Where batches of chain starts come from, and the source that draws them on
//! the searching thread.
use crate::chain::chain_count;
use crate::entropy::{generate_chain_start, KeyRng};
use crate::error::Error;
use crate::scalar::SecretKey;
use crate::worker::stopped;
use std::sync::atomic::AtomicBool;
use vstd::prelude::*;

verus! {

use crate::backend::scalars;
use crate::chain::{chains_for, start_accepted};
use crate::entropy::{
    descends, drew_all, exhausted, is_draw, lemma_descends_twice, lemma_drew_all, lemma_drew_next,
};
use crate::scalar::erased_scalar;
use crate::worker::flag_reads;

/// Keys that are wiped once they are no longer needed.
pub struct KeyBatch(pub Vec<SecretKey>);

impl KeyBatch {
    /// Overwrites every key.
    pub fn wipe(&mut self)
        ensures
            final(self).0@.len() == old(self).0@.len(),
            forall|i: int| 0 <= i < final(self).0@.len() ==> (#[trigger] final(self).0@[i])@
                == erased_scalar(),
    {
        let mut i: usize = 0;
        let len: usize = self.0.len();
        while i < len
            invariant
                i <= len,
                len == self.0@.len(),
                len == old(self).0@.len(),
                forall|k: int| 0 <= k < i ==> (#[trigger] self.0@[k])@ == erased_scalar(),
            decreases len - i,
        {
            let mut key: SecretKey = self.0[i];
            key.non_secure_erase();
            self.0.set(i, key);
            i += 1;
        }
    }

    /// Overwrites every key of a batch that is needed no more.
    pub fn retire(self)
        ensures
            exists|cleared: &mut KeyBatch|
                *cleared == self && #[trigger] call_ensures(KeyBatch::wipe, (cleared,), ()),
    {
        let mut batch: KeyBatch = self;
        batch.wipe();
    }
}

/// Whether a batch of these keys was retired.
pub open spec fn retired(keys: Seq<SecretKey>) -> bool {
    exists|batch: KeyBatch|
        batch.0@ == keys && #[trigger] call_ensures(KeyBatch::retire, (batch,), ())
}

/// A copy of a batch of keys, to be wiped by whoever holds it.
pub fn clone_key_batch(keys: &[SecretKey]) -> (r: KeyBatch)
    ensures
        r.0@ == keys@,
{
    let mut copied: Vec<SecretKey> = Vec::new();
    let mut i: usize = 0;
    while i < keys.len()
        invariant
            i <= keys@.len(),
            copied@ == keys@.take(i as int),
        decreases keys@.len() - i,
    {
        copied.push(keys[i]);
        i += 1;
    }
    assert(keys@.take(keys@.len() as int) =~= keys@);
    KeyBatch(copied)
}

/// What a source gave, as plain values.
pub open spec fn given(r: Result<Option<&[SecretKey]>, Error>) -> Result<
    Option<Seq<SecretKey>>,
    Error,
> {
    match r {
        Ok(Some(keys)) => Ok(Some(keys@)),
        Ok(None) => Ok(None),
        Err(e) => Err(e),
    }
}

/// Where batches of chain starts come from.
pub trait KeySource: Sized {
    /// Whether asking for the next batch can lead from `before` to `after` and
    /// give `r`.
    spec fn gives(
        before: Self,
        stop: &AtomicBool,
        after: Self,
        r: Result<Option<Seq<SecretKey>>, Error>,
    ) -> bool;

    /// Whether giving a batch back can lead from `before` to `after` and give
    /// `r`.
    spec fn takes_back(before: Self, stop: &AtomicBool, after: Self, r: Result<(), Error>) -> bool;

    /// The next batch, or `None` where the search was told to stop.
    fn next(&mut self, stop: &AtomicBool) -> (r: Result<Option<&[SecretKey]>, Error>)
        ensures
            Self::gives(*old(self), stop, *final(self), given(r)),
    ;

    /// Gives back the batch that `next` handed out.
    fn recycle(&mut self, stop: &AtomicBool) -> (r: Result<(), Error>)
        ensures
            Self::takes_back(*old(self), stop, *final(self), r),
    ;
}

/// Draws every batch on the searching thread.
pub struct SequentialSource<'a, R> {
    rng: &'a mut R,
    keys: KeyBatch,
    size: usize,
    stride: usize,
}

impl<'a, R: KeyRng> SequentialSource<'a, R> {
    /// A source of batches of `size` addresses in chains of `stride` scalars.
    pub fn new(rng: &'a mut R, size: usize, stride: usize) -> (r: SequentialSource<'a, R>)
        ensures
            r.chains() == chains_for(size as nat, stride as nat),
            r.stride() == stride,
            r.generator() == *old(rng),
            r.held().len() == 0,
            r.ready(),
    {
        SequentialSource { rng, keys: KeyBatch(Vec::new()), size, stride }
    }

    /// The starts in a batch.
    pub closed spec fn chains(&self) -> nat {
        chains_for(self.size as nat, self.stride as nat)
    }

    /// The scalars in a chain.
    pub closed spec fn stride(&self) -> nat {
        self.stride as nat
    }

    /// The generator as it is now.
    pub closed spec fn generator(&self) -> R {
        *self.rng
    }

    /// The starts that are held.
    pub closed spec fn held(&self) -> Seq<SecretKey> {
        self.keys.0@
    }

    /// Whether no more starts are held than a batch has.
    pub open spec fn ready(&self) -> bool {
        self.held().len() <= self.chains()
    }

    /// Overwrites the keys of the last batch.
    pub fn wipe(&mut self)
        ensures
            final(self).held().len() == old(self).held().len(),
            forall|i: int|
                0 <= i < final(self).held().len() ==> (#[trigger] final(self).held()[i])@
                    == erased_scalar(),
    {
        self.keys.wipe();
    }

    /// Overwrites the keys of the last batch of a source that is needed no more.
    pub fn retire(self)
        ensures
            exists|cleared: &mut SequentialSource<'a, R>|
                *cleared == self && #[trigger] call_ensures(
                    SequentialSource::<'a, R>::wipe,
                    (cleared,),
                    (),
                ),
    {
        let mut source: SequentialSource<'a, R> = self;
        source.wipe();
    }
}

impl<'a, R: KeyRng> KeySource for SequentialSource<'a, R> {
    /// The next accepted draws of the generator, for a whole batch, unless the
    /// search was told to stop meanwhile or the generator is exhausted.
    open spec fn gives(
        before: SequentialSource<'a, R>,
        stop: &AtomicBool,
        after: SequentialSource<'a, R>,
        r: Result<Option<Seq<SecretKey>>, Error>,
    ) -> bool {
        &&& after.chains() == before.chains()
        &&& after.stride() == before.stride()
        &&& descends(before.generator(), after.generator())
        &&& r is Ok ==> after.held().len() == (if before.held().len() < before.chains() {
            before.chains()
        } else {
            before.held().len()
        })
        &&& r is Ok ==> drew_all(
            before.generator(),
            after.generator(),
            before.stride(),
            scalars(after.held()),
        )
        &&& match r {
            Ok(Some(keys)) => flag_reads(stop, false) && keys == after.held(),
            Ok(None) => flag_reads(stop, true),
            Err(e) => e == Error::EntropyExhausted && exists|left: R| #[trigger]
                descends(before.generator(), left) && exhausted(left, before.stride()),
        }
    }

    /// Nothing has to be given back.
    open spec fn takes_back(
        before: SequentialSource<'a, R>,
        stop: &AtomicBool,
        after: SequentialSource<'a, R>,
        r: Result<(), Error>,
    ) -> bool {
        r is Ok && after == before
    }

    fn next(&mut self, stop: &AtomicBool) -> (r: Result<Option<&[SecretKey]>, Error>)
        ensures
            final(self).chains() == old(self).chains(),
            final(self).stride() == old(self).stride(),
            r is Ok && old(self).ready() ==> final(self).held().len() == final(self).chains()
                && all_accepted(final(self).held(), final(self).stride()),
            r is Ok ==> drew_all(
                old(self).generator(),
                final(self).generator(),
                final(self).stride(),
                scalars(final(self).held()),
            ),
            r matches Ok(Some(keys)) ==> keys@ == final(self).held(),
            r matches Err(e) ==> e == Error::EntropyExhausted,
    {
        let count: usize = chain_count(self.size, self.stride);
        let ghost before = *self.rng;
        let filled = fill_secret_keys(self.rng, &mut self.keys, count, self.stride);
        match filled {
            Ok(()) => {},
            Err(e) => {
                proof {
                    let left = choose|left: R| #[trigger]
                        descends(before, left) && exhausted(left, self.stride as nat);
                    assert(descends(old(self).generator(), left));
                }
                return Err(e);
            },
        }
        if stopped(stop) {
            Ok(None)
        } else {
            Ok(Some(self.keys.0.as_slice()))
        }
    }

    fn recycle(&mut self, stop: &AtomicBool) -> (r: Result<(), Error>)
        ensures
            r is Ok,
            *final(self) == *old(self),
    {
        Ok(())
    }
}

/// Whether every key may start a chain of `len` scalars.
pub open spec fn all_accepted(keys: Seq<SecretKey>, len: nat) -> bool {
    forall|i: int| 0 <= i < keys.len() ==> start_accepted((#[trigger] keys[i])@, len)
}

/// Redraws every key of the batch and adds more until there are `count`.
pub fn fill_secret_keys<R: KeyRng>(
    rng: &mut R,
    batch: &mut KeyBatch,
    count: usize,
    stride: usize,
) -> (r: Result<(), Error>)
    ensures
        r is Ok ==> all_accepted(final(batch).0@, stride as nat) && final(batch).0@.len() == (if old(
            batch,
        ).0@.len() < count {
            count as nat
        } else {
            old(batch).0@.len()
        }),
        r is Ok ==> drew_all(*old(rng), *final(rng), stride as nat, scalars(final(batch).0@)),
        r is Ok ==> forall|i: int|
            0 <= i < final(batch).0@.len() ==> is_draw(
                *old(rng),
                stride as nat,
                (#[trigger] final(batch).0@[i])@,
            ),
        descends(*old(rng), *final(rng)),
        r matches Err(e) ==> e == Error::EntropyExhausted && exists|left: R| #[trigger]
            descends(*old(rng), left) && exhausted(left, stride as nat),
{
    let present: usize = batch.0.len();
    batch.wipe();
    let mut i: usize = 0;
    while i < present
        invariant
            i <= present,
            present == batch.0@.len(),
            forall|k: int| 0 <= k < i ==> start_accepted((#[trigger] batch.0@[k])@, stride as nat),
            drew_all(*old(rng), *rng, stride as nat, scalars(batch.0@.take(i as int))),
        decreases present - i,
    {
        let ghost before = *rng;
        let ghost drawn = scalars(batch.0@.take(i as int));
        let key: SecretKey = match generate_chain_start(rng, stride) {
            Ok(key) => key,
            Err(e) => {
                proof {
                    lemma_drew_all(*old(rng), before, stride as nat, drawn);
                    assert(descends(before, *rng));
                    lemma_descends_twice(*old(rng), before, *rng);
                }
                return Err(e);
            },
        };
        batch.0.set(i, key);
        i += 1;
        proof {
            let longer = scalars(batch.0@.take(i as int));
            lemma_drew_next(*old(rng), before, *rng, stride as nat, drawn, key@);
            assert(longer =~= drawn.push(key@));
        }
    }
    assert(batch.0@.take(present as int) =~= batch.0@);
    while batch.0.len() < count
        invariant
            batch.0@.len() >= present,
            batch.0@.len() <= count || batch.0@.len() == present,
            all_accepted(batch.0@, stride as nat),
            drew_all(*old(rng), *rng, stride as nat, scalars(batch.0@)),
        decreases count - batch.0@.len(),
    {
        let ghost before = *rng;
        let ghost drawn = scalars(batch.0@);
        let key: SecretKey = match generate_chain_start(rng, stride) {
            Ok(key) => key,
            Err(e) => {
                proof {
                    lemma_drew_all(*old(rng), before, stride as nat, drawn);
                    assert(descends(before, *rng));
                    lemma_descends_twice(*old(rng), before, *rng);
                }
                return Err(e);
            },
        };
        batch.0.push(key);
        proof {
            let longer = scalars(batch.0@);
            lemma_drew_next(*old(rng), before, *rng, stride as nat, drawn, key@);
            assert(longer =~= drawn.push(key@));
        }
    }
    proof {
        let drawn = scalars(batch.0@);
        lemma_drew_all(*old(rng), *rng, stride as nat, drawn);
        assert forall|k: int| 0 <= k < batch.0@.len() implies is_draw(
            *old(rng),
            stride as nat,
            (#[trigger] batch.0@[k])@,
        ) by {
            assert(drawn[k] == batch.0@[k]@);
        }
    }
    Ok(())
}

}
