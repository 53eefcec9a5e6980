# vanity-rs

Search for Ethereum addresses with a chosen hex prefix and suffix, on the CPU or
on a GPU. The library under `src/` is verified with Verus; the program under
`app/` does the input and output around it.

## Layout

- `scalar`, `chain`: secret scalars, and chains of consecutive scalars that share
  one start.
- `address`, `hex`: the address that a scalar controls, and hex text.
- `target`, `matching`, `best`, `hint`: what is searched for, how well an address
  matches, the closest candidate so far, and the score that is published of it.
- `entropy`: rejection sampling over a seeded generator.
- `backend`, `gpu`, `ring`, `launch`, `device`, `metal`, `table`: what computes
  addresses, how work is laid out on a device, and how devices are chosen.
- `source`, `judge`, `search`: where chain starts come from, what a batch is worth,
  and the search loops.
- `worker`, `counter`, `clock`: what a worker shares with the others, attempt
  counters and time.
- `trace`, `outcome`, `steps`, `alike`, `preparation`: what a search did, as lists of
  calls, how it ended, and what follows from that.
- `queue`, `pipeline`, `events`: the queues between threads, keys prepared ahead, and
  how the main thread hears of hits.
- `output`, `text`, `error`: file names, numbers and messages.

## What is proved

- Every hit that a search returns is a key whose address meets the targets, and
  every candidate that a verified `BestState` hands out is a key with its own
  address.
- Of a batch, the best candidate is the highest-ranked address and the hit is the
  first full match.
- Keys are the accepted draws of the generator, in order, and every chain start
  avoids the exceptions of incomplete point addition.
- The fixed-base table holds `digit * 2^(bits * window)` times the generator at
  each place.
- Batches are collected from a device in the order in which they were submitted,
  one address of each is checked on the CPU, and the keys are overwritten on the
  device and in the host's copies whatever it answers. Seeds and drawn bytes are
  overwritten too.
- A search hands the backend the starts that its source gave, in order, counts every
  batch that was finished, and reports and offers exactly what is due. Every attempt
  has reached the shared counter when the search ends.
- A search that keeps several batches out ends one before a hit only where the
  backend holds no more or none is left to begin.
- A search is handed the same keys whether they are drawn ahead on a thread of their
  own or on the searching thread, and then fails or finds the same alike, after as
  many attempts.
- Over any row of offers, the score published last is that of the closest candidate
  held, and never falls.
- A wait on a queue looks at the stop flag before every poll, preparation before every
  chunk of keys, and either ends at once where the flag is raised.
- The closest candidate is kept once for each improvement that the main thread sees,
  and no error is hidden by a hit.

What the proofs take on trust is written next to each call into an outside crate:
the range check, point derivation and point addition of `secp256k1`, the digest of
`tiny-keccak`, the stream of `rand_chacha`, and the queues of `crossbeam`.

## Kernels

GPU backends load `shader.ptx`, `shader.spv` or `shader.metal` from the program's
directory.
