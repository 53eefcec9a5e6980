//! Where secret keys come from: rejection sampling over a cryptographic
//! generator that the operating system seeds.
use crate::chain::chain_start_accepted;
use crate::error::Error;
use crate::scalar::{wipe, SecretKey};
use vstd::prelude::*;

verus! {

use crate::chain::start_accepted;
use crate::scalar::{be_value, is_scalar};

/// A source of random bytes, 32 at a time.
pub trait KeyRng: Sized {
    /// The bytes of the draw that is `ahead` draws from now. Each generator says
    /// what they are.
    open spec fn draw(&self, ahead: nat) -> Seq<u8> {
        Seq::empty()
    }

    /// Fills `bytes` with the next draw.
    fn fill_bytes(&mut self, bytes: &mut [u8; 32])
        ensures
            final(bytes)@ == old(self).draw(0),
            forall|i: nat| #[trigger] final(self).draw(i) == old(self).draw(i + 1),
    ;
}

/// `rand_chacha::ChaCha20Rng`, the generator of the search.
#[verifier::external_type_specification]
#[verifier::external_body]
pub struct ExChaCha20Rng(rand_chacha::ChaCha20Rng);

/// The 32 bytes of draw `index` from the ChaCha20 stream of `seed`.
pub uninterp spec fn chacha_block(seed: Seq<u8>, index: nat) -> Seq<u8>;

/// A ChaCha20 generator, with the seed that it was made from and how often it
/// was drawn from.
pub struct SeededRng {
    rng: rand_chacha::ChaCha20Rng,
    seed: Ghost<Seq<u8>>,
    drawn: Ghost<nat>,
}

impl SeededRng {
    /// The seed that the generator was made from.
    pub closed spec fn seed(&self) -> Seq<u8> {
        self.seed@
    }

    /// How often the generator was drawn from.
    pub closed spec fn drawn(&self) -> nat {
        self.drawn@
    }

    /// The generator of a seed.
    pub fn from_seed(seed: &[u8; 32]) -> (r: SeededRng)
        ensures
            r.seed() == seed@,
            r.drawn() == 0,
    {
        chacha_from_seed(seed)
    }
}

/// `rand_core::SeedableRng::from_seed`: the generator of a seed, from which
/// nothing was drawn yet.
#[verifier::external_body]
fn chacha_from_seed(seed: &[u8; 32]) -> (r: SeededRng)
    ensures
        r.seed() == seed@,
        r.drawn() == 0,
{
    let rng = rand::SeedableRng::from_seed(*seed);
    SeededRng { rng, seed: Ghost(seed@), drawn: Ghost(0) }
}

/// `rand_core::RngCore::fill_bytes` on the generator: the next 32 bytes of its
/// stream. They depend on the seed and on how many draws came before, and are
/// named `chacha_block`.
#[verifier::external_body]
fn chacha_fill(rng: &mut SeededRng, bytes: &mut [u8; 32])
    ensures
        final(bytes)@ == chacha_block(old(rng).seed(), old(rng).drawn()),
        final(rng).seed() == old(rng).seed(),
        final(rng).drawn() == old(rng).drawn() + 1,
{
    rand::RngCore::fill_bytes(&mut rng.rng, bytes)
}

/// `rand::rngs::OsRng::try_fill_bytes`: 32 bytes from the operating system, or
/// `false` where it has none to give. The bytes are random, so nothing is
/// claimed of them.
#[verifier::external_body]
pub fn os_entropy(seed: &mut [u8; 32]) -> (filled: bool) {
    rand::RngCore::try_fill_bytes(&mut rand::rngs::OsRng, seed).is_ok()
}

impl KeyRng for SeededRng {
    open spec fn draw(&self, ahead: nat) -> Seq<u8> {
        chacha_block(self.seed(), self.drawn() + ahead)
    }

    fn fill_bytes(&mut self, bytes: &mut [u8; 32])
        ensures
            final(self).seed() == old(self).seed(),
            final(self).drawn() == old(self).drawn() + 1,
    {
        chacha_fill(self, bytes)
    }
}

/// A generator seeded by the operating system. The only failure is that there
/// is no entropy to be had. Whatever the operating system gave is overwritten.
pub fn seed_rng() -> (r: Result<SeededRng, Error>)
    ensures
        r matches Ok(rng) ==> rng.drawn() == 0 && exists|
            asked: &mut [u8; 32],
            spent: &mut [u8; 32],
        |
            final(asked)@ == rng.seed() && spent@ == rng.seed() && #[trigger] call_ensures(
                os_entropy,
                (asked,),
                true,
            ) && #[trigger] call_ensures(wipe, (spent,), ()),
        r matches Err(e) ==> e == Error::NoEntropy && exists|
            asked: &mut [u8; 32],
            spent: &mut [u8; 32],
        |
            final(asked)@ == spent@ && #[trigger] call_ensures(os_entropy, (asked,), false)
                && #[trigger] call_ensures(wipe, (spent,), ()),
{
    let mut seed: [u8; 32] = [0; 32];
    if !os_entropy(&mut seed) {
        wipe(&mut seed);
        return Err(Error::NoEntropy);
    }
    let rng: SeededRng = SeededRng::from_seed(&seed);
    wipe(&mut seed);
    Ok(rng)
}

/// Whether a draw spells a scalar at which a chain of `len` scalars may start.
pub open spec fn draw_accepted(bytes: Seq<u8>, len: nat) -> bool {
    is_scalar(be_value(bytes)) && start_accepted(be_value(bytes), len)
}

/// Whether draw `n` is the first that is accepted.
pub open spec fn first_accepted<R: KeyRng>(rng: R, len: nat, n: nat) -> bool {
    draw_accepted(rng.draw(n), len) && forall|j: nat| j < n ==> !draw_accepted(
        #[trigger] rng.draw(j),
        len,
    )
}

/// Whether one of the draws that can be counted is the first that is accepted.
pub open spec fn gives_key<R: KeyRng>(rng: R, len: nat) -> bool {
    exists|n: nat| n < u64::MAX && first_accepted(rng, len, n)
}

/// Whether no draw of the generator is accepted, for as long as it is asked.
pub open spec fn exhausted<R: KeyRng>(rng: R, len: nat) -> bool {
    forall|n: nat| n < u64::MAX ==> !#[trigger] first_accepted(rng, len, n)
}

/// Whether `to` is `from` once it was drawn from `count` times.
pub open spec fn advanced<R: KeyRng>(from: R, to: R, count: nat) -> bool {
    forall|i: nat| #[trigger] to.draw(i) == from.draw(i + count)
}

/// Whether `scalar` is the first draw of `from` that is accepted, and `to` is
/// what is left after it.
pub open spec fn drew<R: KeyRng>(from: R, to: R, len: nat, scalar: nat) -> bool {
    exists|n: nat| #[trigger]
        first_accepted(from, len, n) && scalar == be_value(from.draw(n)) && advanced(
            from,
            to,
            n + 1,
        )
}

/// Whether `scalars` are accepted draws of `from`, one after the other, and
/// `to` is what is left after them.
pub open spec fn drew_all<R: KeyRng>(from: R, to: R, len: nat, scalars: Seq<nat>) -> bool
    decreases scalars.len(),
{
    if scalars.len() == 0 {
        from == to
    } else {
        exists|mid: R|
            drew_all(from, mid, len, scalars.drop_last()) && #[trigger] drew(
                mid,
                to,
                len,
                scalars.last(),
            )
    }
}

/// Whether `scalar` is an accepted draw of `rng`.
pub open spec fn is_draw<R: KeyRng>(rng: R, len: nat, scalar: nat) -> bool {
    exists|n: nat| draw_accepted(#[trigger] rng.draw(n), len) && scalar == be_value(rng.draw(n))
}

/// Whether `to` is `from` once it was drawn from, however often.
pub open spec fn descends<R: KeyRng>(from: R, to: R) -> bool {
    exists|count: nat| #[trigger] advanced(from, to, count)
}

/// What descends from what descends from a generator descends from it.
pub proof fn lemma_descends_twice<R: KeyRng>(first: R, second: R, third: R)
    requires
        descends(first, second),
        descends(second, third),
    ensures
        descends(first, third),
{
    let a = choose|a: nat| #[trigger] advanced(first, second, a);
    let b = choose|b: nat| #[trigger] advanced(second, third, b);
    assert forall|i: nat| #[trigger] third.draw(i) == first.draw(i + (a + b)) by {
        assert(third.draw(i) == second.draw(i + b));
        assert(second.draw(i + b) == first.draw((i + b) + a));
        assert((i + b) + a == i + (a + b));
    }
    assert(advanced(first, third, a + b));
}

/// A draw of what descends from a generator is a draw of it.
pub proof fn lemma_draw_of_ancestor<R: KeyRng>(from: R, to: R, len: nat, scalar: nat)
    requires
        descends(from, to),
        is_draw(to, len, scalar),
    ensures
        is_draw(from, len, scalar),
{
    let count = choose|count: nat| #[trigger] advanced(from, to, count);
    let n = choose|n: nat|
        draw_accepted(#[trigger] to.draw(n), len) && scalar == be_value(to.draw(n));
    assert(to.draw(n) == from.draw(n + count));
}

/// An accepted draw is a draw, and what is left after it descends from the
/// generator.
proof fn lemma_drew<R: KeyRng>(from: R, to: R, len: nat, scalar: nat)
    requires
        drew(from, to, len, scalar),
    ensures
        is_draw(from, len, scalar),
        descends(from, to),
{
    let n = choose|n: nat| #[trigger]
        first_accepted(from, len, n) && scalar == be_value(from.draw(n)) && advanced(
            from,
            to,
            n + 1,
        );
    assert(draw_accepted(from.draw(n), len));
}

/// Accepted draws, one after the other, are draws, and what is left after them
/// descends from the generator.
pub proof fn lemma_drew_all<R: KeyRng>(from: R, to: R, len: nat, scalars: Seq<nat>)
    requires
        drew_all(from, to, len, scalars),
    ensures
        descends(from, to),
        forall|i: int| 0 <= i < scalars.len() ==> is_draw(from, len, #[trigger] scalars[i]),
    decreases scalars.len(),
{
    if scalars.len() == 0 {
        lemma_descends_self(from);
    } else {
        let earlier = scalars.drop_last();
        let mid = choose|mid: R|
            drew_all(from, mid, len, earlier) && #[trigger] drew(mid, to, len, scalars.last());
        lemma_drew_all(from, mid, len, earlier);
        lemma_drew(mid, to, len, scalars.last());
        lemma_descends_twice(from, mid, to);
        lemma_draw_of_ancestor(from, mid, len, scalars.last());
        assert forall|i: int| 0 <= i < scalars.len() implies is_draw(
            from,
            len,
            #[trigger] scalars[i],
        ) by {
            if i < earlier.len() {
                assert(earlier[i] == scalars[i]);
            }
        }
    }
}

/// A generator descends from itself.
pub proof fn lemma_descends_self<R: KeyRng>(rng: R)
    ensures
        descends(rng, rng),
{
    assert(advanced(rng, rng, 0));
}

/// One more draw after a row of them makes the row longer.
pub proof fn lemma_drew_next<R: KeyRng>(
    from: R,
    mid: R,
    to: R,
    len: nat,
    scalars: Seq<nat>,
    next: nat,
)
    requires
        drew_all(from, mid, len, scalars),
        drew(mid, to, len, next),
    ensures
        drew_all(from, to, len, scalars.push(next)),
{
    let longer = scalars.push(next);
    assert(longer.drop_last() =~= scalars);
    assert(drew_all(from, mid, len, longer.drop_last()) && drew(mid, to, len, longer.last()));
}

/// The key that one draw gives, where it spells a scalar at which a chain of
/// `len` scalars may start.
pub fn accept_draw(bytes: &[u8; 32], len: usize) -> (r: Option<SecretKey>)
    ensures
        r is Some <==> draw_accepted(bytes@, len as nat),
        r matches Some(key) ==> key@ == be_value(bytes@),
{
    match SecretKey::from_byte_array(*bytes) {
        Ok(key) => if chain_start_accepted(&key, len) {
            Some(key)
        } else {
            None
        },
        Err(_) => None,
    }
}

/// Draws until the bytes spell a scalar: zero and what is not below the curve
/// order are thrown away. Only a generator that never gives a scalar ends in
/// an error, after every draw that can be counted.
pub fn generate_secret_key<R: KeyRng>(rng: &mut R) -> (r: Result<SecretKey, Error>)
    ensures
        r is Ok <==> gives_key(*old(rng), 1),
        r matches Ok(key) ==> is_scalar(key@) && drew(*old(rng), *final(rng), 1, key@),
        r matches Err(e) ==> e == Error::EntropyExhausted && advanced(
            *old(rng),
            *final(rng),
            u64::MAX as nat,
        ),
        r matches Ok(key) ==> exists|spent: &mut [u8; 32]|
            be_value(spent@) == key@ && #[trigger] call_ensures(wipe, (spent,), ()),
        r is Err ==> exists|spent: &mut [u8; 32]|
            spent@ == old(rng).draw((u64::MAX - 1) as nat) && #[trigger] call_ensures(
                wipe,
                (spent,),
                (),
            ),
{
    generate_chain_start(rng, 1)
}

/// Draws until the bytes spell a scalar at which a chain of `len` scalars may
/// start. The bytes drawn last are overwritten.
pub fn generate_chain_start<R: KeyRng>(rng: &mut R, len: usize) -> (r: Result<SecretKey, Error>)
    ensures
        r is Ok <==> gives_key(*old(rng), len as nat),
        r matches Ok(key) ==> is_scalar(key@) && start_accepted(key@, len as nat) && drew(
            *old(rng),
            *final(rng),
            len as nat,
            key@,
        ),
        r matches Err(e) ==> e == Error::EntropyExhausted && advanced(
            *old(rng),
            *final(rng),
            u64::MAX as nat,
        ),
        r matches Ok(key) ==> exists|spent: &mut [u8; 32]|
            be_value(spent@) == key@ && #[trigger] call_ensures(wipe, (spent,), ()),
        r is Err ==> exists|spent: &mut [u8; 32]|
            spent@ == old(rng).draw((u64::MAX - 1) as nat) && #[trigger] call_ensures(
                wipe,
                (spent,),
                (),
            ),
{
    let mut bytes: [u8; 32] = [0; 32];
    let mut draws: u64 = 0;
    while draws < u64::MAX
        invariant
            advanced(*old(rng), *rng, draws as nat),
            draws > 0 ==> bytes@ == old(rng).draw((draws - 1) as nat),
            forall|j: nat|
                j < draws ==> !draw_accepted(#[trigger] old(rng).draw(j), len as nat),
        decreases u64::MAX - draws,
    {
        let ghost before = *rng;
        rng.fill_bytes(&mut bytes);
        proof {
            assert(before.draw(0) == old(rng).draw(draws as nat));
            assert forall|i: nat| #[trigger] rng.draw(i) == old(rng).draw(i + (draws + 1) as nat) by {
                assert(before.draw(i + 1) == old(rng).draw((i + 1) + draws as nat));
                assert((i + 1) + draws as nat == i + (draws + 1) as nat);
            }
        }
        if let Some(key) = accept_draw(&bytes, len) {
            assert(first_accepted(*old(rng), len as nat, draws as nat));
            wipe(&mut bytes);
            return Ok(key);
        }
        draws += 1;
    }
    wipe(&mut bytes);
    Err(Error::EntropyExhausted)
}

/// Draws are used up: the draws of two keys that follow each other are
/// different places of the stream, the second behind the first.
pub proof fn law_draws_are_not_repeated<R: KeyRng>(
    from: R,
    mid: R,
    len: nat,
    first: nat,
    second: nat,
)
    requires
        first_accepted(from, len, first),
        advanced(from, mid, first + 1),
        first_accepted(mid, len, second),
    ensures
        mid.draw(second) == from.draw(first + 1 + second),
        forall|j: nat|
            first < j < first + 1 + second ==> !draw_accepted(#[trigger] from.draw(j), len),
{
    assert(mid.draw(second) == from.draw(second + (first + 1)));
    assert forall|j: nat| first < j < first + 1 + second implies !draw_accepted(
        #[trigger] from.draw(j),
        len,
    ) by {
        let i = (j - first - 1) as nat;
        assert(mid.draw(i) == from.draw(i + (first + 1)));
    }
}

/// Generators with the same draws give the same keys, and go on to give the same
/// draws.
pub proof fn law_same_draws_same_keys<R: KeyRng>(
    a: R,
    b: R,
    a_after: R,
    b_after: R,
    len: nat,
    xs: Seq<nat>,
    ys: Seq<nat>,
)
    requires
        advanced(a, b, 0),
        drew_all(a, a_after, len, xs),
        drew_all(b, b_after, len, ys),
        xs.len() == ys.len(),
    ensures
        xs == ys,
        advanced(a_after, b_after, 0),
    decreases xs.len(),
{
    if xs.len() == 0 {
        assert(xs =~= ys);
    } else {
        let p = choose|mid: R|
            drew_all(a, mid, len, xs.drop_last()) && #[trigger] drew(mid, a_after, len, xs.last());
        let q = choose|mid: R|
            drew_all(b, mid, len, ys.drop_last()) && #[trigger] drew(mid, b_after, len, ys.last());
        law_same_draws_same_keys(a, b, p, q, len, xs.drop_last(), ys.drop_last());
        let n = choose|n: nat| #[trigger]
            first_accepted(p, len, n) && xs.last() == be_value(p.draw(n)) && advanced(
                p,
                a_after,
                n + 1,
            );
        let m = choose|m: nat| #[trigger]
            first_accepted(q, len, m) && ys.last() == be_value(q.draw(m)) && advanced(
                q,
                b_after,
                m + 1,
            );
        assert(q.draw(n) == p.draw(n + 0));
        assert(q.draw(m) == p.draw(m + 0));
        assert(n == m);
        assert forall|i: nat| #[trigger] b_after.draw(i) == a_after.draw(i + 0) by {
            assert(q.draw(i + (n + 1)) == p.draw(i + (n + 1) + 0));
            assert(a_after.draw(i) == p.draw(i + (n + 1)));
        }
        assert(xs =~= xs.drop_last().push(xs.last()));
        assert(ys =~= ys.drop_last().push(ys.last()));
    }
}

/// Two generators of one seed give the same keys.
pub proof fn law_seed_fixes_keys(
    a: SeededRng,
    b: SeededRng,
    a_after: SeededRng,
    b_after: SeededRng,
    len: nat,
    x: nat,
    y: nat,
)
    requires
        a.seed() == b.seed(),
        a.drawn() == b.drawn(),
        drew(a, a_after, len, x),
        drew(b, b_after, len, y),
    ensures
        x == y,
{
    let n = choose|n: nat| #[trigger]
        first_accepted(a, len, n) && x == be_value(a.draw(n)) && advanced(a, a_after, n + 1);
    let m = choose|m: nat| #[trigger]
        first_accepted(b, len, m) && y == be_value(b.draw(m)) && advanced(b, b_after, m + 1);
    assert(a.draw(n) == b.draw(n));
    assert(a.draw(m) == b.draw(m));
}

}
