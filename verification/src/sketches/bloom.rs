//! Bloom filters for distinct/membership telemetry workloads.
//!
//! `BloomFilter` is a standard bit Bloom filter. `CountingBloomFilter` stores
//! saturating `u8` counters and supports deletion. Both use deterministic FNV-1a
//! double hashing so stored results are reproducible without a global RNG or
//! external dependency.

use crate::common::bytes::same_bytes;
use vstd::arithmetic::power2::*;
use vstd::prelude::*;
use vstd::string::*;

verus! {

/// The offset that the first hash of a key starts from.
pub const FIRST_OFFSET: u64 = 1469598103934665603;

/// The multiplier of the first hash.
pub const FIRST_PRIME: u64 = 1099511628211;

/// The offset that the second hash of a key starts from.
pub const SECOND_OFFSET: u64 = 1099511628211;

/// The multiplier of the second hash.
pub const SECOND_PRIME: u64 = 14029467366897019727;

/// The FNV-1a hash of `bytes` with the given offset and multiplier: each byte
/// is mixed in by an exclusive or, then a multiplication modulo `2^64`.
pub open spec fn fnv1a(bytes: Seq<u8>, offset: u64, prime: u64) -> u64
    decreases bytes.len(),
{
    if bytes.len() == 0 {
        offset
    } else {
        (fnv1a(bytes.drop_last(), offset, prime) ^ (bytes.last() as u64)).wrapping_mul(prime)
    }
}

/// The two hashes of a key. The second is the step between rounds, and odd, so
/// that the rounds do not repeat early (see `law_rounds_do_not_repeat`).
pub open spec fn key_hashes(key: Seq<u8>) -> (u64, u64) {
    (fnv1a(key, FIRST_OFFSET, FIRST_PRIME), fnv1a(key, SECOND_OFFSET, SECOND_PRIME) | 1)
}

/// The cell that a key is sent to in one round of double hashing.
#[verifier::opaque]
pub open spec fn probe(key: Seq<u8>, round: int, cells: int) -> int {
    let (first, second) = key_hashes(key);
    (first.wrapping_add((round as u64).wrapping_mul(second)) as usize) as int % cells
}

/// The cells that a key is sent to, round by round.
pub open spec fn probes(key: Seq<u8>, hashes: nat, cells: int) -> Seq<int> {
    Seq::new(hashes, |round: int| probe(key, round, cells))
}

/// How often `cell` occurs among `cells`.
pub open spec fn occurrences(cells: Seq<int>, cell: int) -> int
    decreases cells.len(),
{
    if cells.len() == 0 {
        0
    } else {
        occurrences(cells.drop_last(), cell) + if cells.last() == cell {
            1int
        } else {
            0int
        }
    }
}

/// Computes the two hashes of a key.
pub fn hash_pair(key: &str) -> (hashes: (u64, u64))
    ensures
        hashes == key_hashes(key.spec_bytes()),
{
    let bytes: &[u8] = key.as_bytes();
    let mut first: u64 = FIRST_OFFSET;
    let mut second: u64 = SECOND_OFFSET;
    let mut i: usize = 0;
    assert(bytes@.take(0) =~= Seq::empty());
    while i < bytes.len()
        invariant
            i <= bytes@.len(),
            first == fnv1a(bytes@.take(i as int), FIRST_OFFSET, FIRST_PRIME),
            second == fnv1a(bytes@.take(i as int), SECOND_OFFSET, SECOND_PRIME),
        decreases bytes@.len() - i,
    {
        let byte: u8 = bytes[i];
        first = (first ^ byte as u64).wrapping_mul(FIRST_PRIME);
        second = (second ^ byte as u64).wrapping_mul(SECOND_PRIME);
        i = i + 1;
        proof {
            assert(bytes@.take(i as int).drop_last() =~= bytes@.take(i - 1));
        }
    }
    assert(bytes@.take(bytes@.len() as int) =~= bytes@);
    (first, second | 1)
}

/// The positions that `indices` holds, as integers.
pub open spec fn positions(indices: Seq<usize>) -> Seq<int> {
    Seq::new(indices.len(), |i: int| indices[i] as int)
}

/// Lists the cells that a key is sent to, round by round.
fn probe_all(key: &str, hashes: usize, cells: usize) -> (indices: Vec<usize>)
    requires
        cells > 0,
    ensures
        positions(indices@) == probes(key.spec_bytes(), hashes as nat, cells as int),
        forall|i: int| 0 <= i < indices@.len() ==> #[trigger] indices@[i] < cells,
{
    let (first, second) = hash_pair(key);
    let mut indices: Vec<usize> = Vec::new();
    let mut round: usize = 0;
    while round < hashes
        invariant
            round <= hashes,
            cells > 0,
            (first, second) == key_hashes(key.spec_bytes()),
            indices@.len() == round,
            forall|i: int|
                0 <= i < round ==> #[trigger] indices@[i] == probe(
                    key.spec_bytes(),
                    i,
                    cells as int,
                ) && indices@[i] < cells,
        decreases hashes - round,
    {
        let spread: u64 = first.wrapping_add((round as u64).wrapping_mul(second));
        proof {
            reveal(probe);
        }
        indices.push(spread as usize % cells);
        round = round + 1;
    }
    assert(positions(indices@) =~= probes(key.spec_bytes(), hashes as nat, cells as int));
    indices
}

/// A position that occurs is listed, and one that is listed occurs.
proof fn lemma_occurs(cells: Seq<int>, cell: int)
    ensures
        occurrences(cells, cell) >= 0,
        occurrences(cells, cell) > 0 <==> cells.contains(cell),
    decreases cells.len(),
{
    if cells.len() > 0 {
        lemma_occurs(cells.drop_last(), cell);
        if cells.drop_last().contains(cell) {
            let i = choose|i: int|
                0 <= i < cells.drop_last().len() && cells.drop_last()[i] == cell;
            assert(cells[i] == cell);
        }
        if cells.contains(cell) && cells.last() != cell {
            let i = choose|i: int| 0 <= i < cells.len() && cells[i] == cell;
            assert(cells.drop_last()[i] == cell);
        }
        if cells.last() == cell {
            assert(cells[cells.len() - 1] == cell);
        }
    }
}

/// The marks after `key` has been inserted: a cell that the key is sent to is
/// marked, every other one is as before.
pub open spec fn mark(marks: Seq<bool>, key: Seq<u8>, hashes: nat) -> Seq<bool> {
    Seq::new(
        marks.len(),
        |i: int| marks[i] || probes(key, hashes, marks.len() as int).contains(i),
    )
}

/// Every cell that `key` is sent to is marked.
pub open spec fn all_marked(marks: Seq<bool>, key: Seq<u8>, hashes: nat) -> bool {
    forall|round: int|
        0 <= round < hashes ==> marks[#[trigger] probe(key, round, marks.len() as int)]
}

/// Which bytes are not zero.
pub open spec fn nonzero(bytes: Seq<u8>) -> Seq<bool> {
    Seq::new(bytes.len(), |i: int| bytes[i] != 0)
}

/// The bytes that stand for marks: one for a mark, zero for none.
pub open spec fn mark_bytes(marks: Seq<bool>) -> Seq<u8> {
    Seq::new(
        marks.len(),
        |i: int|
            if marks[i] {
                1u8
            } else {
                0u8
            },
    )
}

/// Whether every cell that `key` is sent to is not zero.
fn every_probe_set(cells: &Vec<u8>, key: &str, hashes: usize) -> (set: bool)
    requires
        cells@.len() > 0,
    ensures
        set == all_marked(nonzero(cells@), key.spec_bytes(), hashes as nat),
{
    let indices: Vec<usize> = probe_all(key, hashes, cells.len());
    let ghost spread = probes(key.spec_bytes(), hashes as nat, cells@.len() as int);
    assert(positions(indices@).len() == spread.len());
    assert forall|round: int| 0 <= round < spread.len() implies #[trigger] indices@[round]
        == probe(key.spec_bytes(), round, cells@.len() as int) by {
        assert(positions(indices@)[round] == spread[round]);
    }
    let mut i: usize = 0;
    while i < indices.len()
        invariant
            i <= indices@.len(),
            indices@.len() == hashes,
            forall|j: int| 0 <= j < indices@.len() ==> #[trigger] indices@[j] < cells@.len(),
            forall|j: int|
                0 <= j < indices@.len() ==> #[trigger] indices@[j] == probe(
                    key.spec_bytes(),
                    j,
                    cells@.len() as int,
                ),
            forall|j: int| 0 <= j < i ==> cells@[#[trigger] indices@[j] as int] != 0,
        decreases indices@.len() - i,
    {
        if cells[indices[i]] == 0 {
            let ghost marks = nonzero(cells@);
            assert(marks.len() == cells@.len());
            assert(!marks[probe(key.spec_bytes(), i as int, marks.len() as int)]);
            return false;
        }
        i = i + 1;
    }
    assert forall|round: int| 0 <= round < hashes implies nonzero(cells@)[#[trigger] probe(
        key.spec_bytes(),
        round,
        cells@.len() as int,
    )] by {
        assert(cells@[indices@[round] as int] != 0);
    }
    true
}

/// A Bloom filter: a set that may answer that it holds a key it was never
/// given, and never that it lacks one that it was.
#[derive(Clone, Debug, Eq)]
pub struct BloomFilter {
    cells: Vec<u8>,
    hashes: usize,
}

impl View for BloomFilter {
    type V = Seq<bool>;

    closed spec fn view(&self) -> Seq<bool> {
        nonzero(self.cells@)
    }
}

impl PartialEq for BloomFilter {
    /// Two filters are equal if they have the same cells and rounds.
    fn eq(&self, other: &Self) -> (equal: bool) {
        self.hashes == other.hashes && same_bytes(self.cells.as_slice(), other.cells.as_slice())
    }
}

impl vstd::std_specs::cmp::PartialEqSpecImpl for BloomFilter {
    open spec fn obeys_eq_spec() -> bool {
        true
    }

    open spec fn eq_spec(&self, other: &Self) -> bool {
        self.rounds() == other.rounds() && self.cell_bytes() == other.cell_bytes()
    }
}

impl BloomFilter {
    /// Neither dimension is zero, and a cell is zero or one.
    pub closed spec fn wf(&self) -> bool {
        &&& self.cells@.len() > 0
        &&& self.hashes > 0
        &&& forall|i: int| 0 <= i < self.cells@.len() ==> #[trigger] self.cells@[i] <= 1
    }

    /// The number of rounds.
    pub closed spec fn rounds(&self) -> nat {
        self.hashes as nat
    }

    /// The cells, one byte each.
    pub closed spec fn cell_bytes(&self) -> Seq<u8> {
        self.cells@
    }

    /// What a well-formed filter is: it has cells and rounds, and its bytes are
    /// its marks.
    pub proof fn lemma_wf(&self)
        requires
            self.wf(),
        ensures
            self@.len() > 0,
            self.rounds() > 0,
            self.cell_bytes() == mark_bytes(self@),
    {
        assert(self.cell_bytes() =~= mark_bytes(self@));
    }

    /// An empty filter with `cells` cells, that sends a key to `hashes` of
    /// them.
    pub fn new(cells: usize, hashes: usize) -> (filter: Self)
        requires
            cells > 0,
            hashes > 0,
        ensures
            filter.wf(),
            filter@ == Seq::new(cells as nat, |i: int| false),
            filter.rounds() == hashes,
    {
        let filter: BloomFilter = Self { cells: vec![0; cells], hashes };
        assert(filter@ =~= Seq::new(cells as nat, |i: int| false));
        filter
    }

    /// Adds `key`.
    pub fn insert(&mut self, key: &str)
        requires
            old(self).wf(),
        ensures
            final(self).wf(),
            final(self)@ == mark(old(self)@, key.spec_bytes(), old(self).rounds()),
            final(self).rounds() == old(self).rounds(),
    {
        let ghost before = self@;
        let indices: Vec<usize> = self.indices(key);
        let mut i: usize = 0;
        while i < indices.len()
            invariant
                i <= indices@.len(),
                self.hashes == old(self).hashes,
                self.hashes > 0,
                self.cells@.len() == before.len(),
                before.len() > 0,
                forall|c: int| 0 <= c < self.cells@.len() ==> #[trigger] self.cells@[c] <= 1,
                forall|j: int| 0 <= j < indices@.len() ==> #[trigger] indices@[j] < before.len(),
                forall|c: int|
                    0 <= c < before.len() ==> (#[trigger] self.cells@[c] != 0) == (before[c]
                        || positions(indices@).take(i as int).contains(c)),
            decreases indices@.len() - i,
        {
            let ghost last = self.cells@;
            let ghost done = positions(indices@).take(i as int);
            let index: usize = indices[i];
            self.cells[index] = 1;
            i = i + 1;
            proof {
                let now = positions(indices@).take(i as int);
                assert(now =~= done.push(index as int));
                assert forall|c: int| 0 <= c < before.len() implies (#[trigger] self.cells@[c]
                    != 0) == (before[c] || now.contains(c)) by {
                    assert((last[c] != 0) == (before[c] || done.contains(c)));
                    lemma_push_contains(done, index as int, c);
                }
            }
        }
        proof {
            assert(positions(indices@).take(indices@.len() as int) =~= positions(indices@));
            assert(self@ =~= mark(before, key.spec_bytes(), self.rounds()));
        }
    }

    /// Whether every cell that `key` is sent to is marked.
    pub fn contains(&self, key: &str) -> (found: bool)
        requires
            self.wf(),
        ensures
            found == all_marked(self@, key.spec_bytes(), self.rounds()),
    {
        every_probe_set(&self.cells, key, self.hashes)
    }

    /// The number of cells.
    pub fn cells(&self) -> (cells: usize)
        ensures
            cells == self@.len(),
    {
        self.cells.len()
    }

    /// The number of cells that a key is sent to.
    pub fn hashes(&self) -> (hashes: usize)
        ensures
            hashes == self.rounds(),
    {
        self.hashes
    }

    /// The bytes that the cells take, one each.
    pub fn memory_bytes(&self) -> (bytes: usize)
        ensures
            bytes == self@.len(),
    {
        self.cells.len()
    }

    /// Forgets every key.
    pub fn clear(&mut self)
        ensures
            final(self)@ == Seq::new(old(self)@.len(), |i: int| false),
            final(self).rounds() == old(self).rounds(),
            old(self).wf() ==> final(self).wf(),
    {
        zero(&mut self.cells);
        assert(self@ =~= Seq::new(old(self)@.len(), |i: int| false));
    }

    /// The cells that `key` is sent to, round by round.
    fn indices(&self, key: &str) -> (indices: Vec<usize>)
        requires
            self.wf(),
        ensures
            positions(indices@) == probes(key.spec_bytes(), self.rounds(), self@.len() as int),
            forall|i: int| 0 <= i < indices@.len() ==> #[trigger] indices@[i] < self@.len(),
    {
        probe_all(key, self.hashes, self.cells.len())
    }
}

/// What a sequence contains once one element more is pushed.
proof fn lemma_push_contains(cells: Seq<int>, cell: int, c: int)
    ensures
        cells.push(cell).contains(c) <==> cells.contains(c) || c == cell,
{
    lemma_occurs(cells.push(cell), c);
    lemma_occurs(cells, c);
    assert(cells.push(cell).drop_last() =~= cells);
}

/// The counters after `key` has been inserted: each goes up by the number of
/// times that the key is sent to it, and stops at 255.
pub open spec fn counted(counters: Seq<u8>, key: Seq<u8>, hashes: nat) -> Seq<u8> {
    Seq::new(
        counters.len(),
        |i: int|
            raised(counters[i], occurrences(probes(key, hashes, counters.len() as int), i)),
    )
}

/// `counter + times`, stopped at 255.
pub open spec fn raised(counter: u8, times: int) -> u8 {
    if counter + times < 255 {
        (counter + times) as u8
    } else {
        255
    }
}

/// The counters after `key` has been removed: each goes down by the number of
/// times that the key is sent to it, and stops at zero.
pub open spec fn uncounted(counters: Seq<u8>, key: Seq<u8>, hashes: nat) -> Seq<u8> {
    Seq::new(
        counters.len(),
        |i: int|
            lowered(counters[i], occurrences(probes(key, hashes, counters.len() as int), i)),
    )
}

/// `counter - times`, stopped at zero.
pub open spec fn lowered(counter: u8, times: int) -> u8 {
    if counter > times {
        (counter - times) as u8
    } else {
        0
    }
}

/// A Bloom filter that counts, and so can take a key out again.
#[derive(Clone, Debug, Eq)]
pub struct CountingBloomFilter {
    counters: Vec<u8>,
    hashes: usize,
}

impl View for CountingBloomFilter {
    type V = Seq<u8>;

    closed spec fn view(&self) -> Seq<u8> {
        self.counters@
    }
}

impl PartialEq for CountingBloomFilter {
    /// Two filters are equal if they have the same counters and rounds.
    fn eq(&self, other: &Self) -> (equal: bool) {
        self.hashes == other.hashes && same_bytes(
            self.counters.as_slice(),
            other.counters.as_slice(),
        )
    }
}

impl vstd::std_specs::cmp::PartialEqSpecImpl for CountingBloomFilter {
    open spec fn obeys_eq_spec() -> bool {
        true
    }

    open spec fn eq_spec(&self, other: &Self) -> bool {
        self.rounds() == other.rounds() && self@ == other@
    }
}

impl CountingBloomFilter {
    /// Neither dimension is zero.
    pub closed spec fn wf(&self) -> bool {
        self.counters@.len() > 0 && self.hashes > 0
    }

    /// The number of rounds.
    pub closed spec fn rounds(&self) -> nat {
        self.hashes as nat
    }

    /// What a well-formed filter is: it has counters and rounds.
    pub proof fn lemma_wf(&self)
        requires
            self.wf(),
        ensures
            self@.len() > 0,
            self.rounds() > 0,
    {
    }

    /// An empty filter with `cells` counters, that sends a key to `hashes` of
    /// them.
    pub fn new(cells: usize, hashes: usize) -> (filter: Self)
        requires
            cells > 0,
            hashes > 0,
        ensures
            filter.wf(),
            filter@ == Seq::new(cells as nat, |i: int| 0u8),
            filter.rounds() == hashes,
    {
        let filter: CountingBloomFilter = Self { counters: vec![0; cells], hashes };
        assert(filter@ =~= Seq::new(cells as nat, |i: int| 0u8));
        filter
    }

    /// Adds `key` once.
    pub fn insert(&mut self, key: &str)
        requires
            old(self).wf(),
        ensures
            final(self).wf(),
            final(self)@ == counted(old(self)@, key.spec_bytes(), old(self).rounds()),
            final(self).rounds() == old(self).rounds(),
    {
        let ghost before = self@;
        let indices: Vec<usize> = self.indices(key);
        let mut i: usize = 0;
        while i < indices.len()
            invariant
                i <= indices@.len(),
                self.hashes == old(self).hashes,
                self.counters@.len() == before.len(),
                forall|j: int| 0 <= j < indices@.len() ==> #[trigger] indices@[j] < before.len(),
                forall|c: int|
                    0 <= c < before.len() ==> #[trigger] self.counters@[c] == raised(
                        before[c],
                        occurrences(positions(indices@).take(i as int), c),
                    ),
            decreases indices@.len() - i,
        {
            let ghost last = self.counters@;
            let ghost done = positions(indices@).take(i as int);
            let index: usize = indices[i];
            let counter: u8 = self.counters[index];
            self.counters[index] = counter.saturating_add(1);
            i = i + 1;
            proof {
                let now = positions(indices@).take(i as int);
                assert(now.drop_last() =~= done);
                assert forall|c: int| 0 <= c < before.len() implies #[trigger] self.counters@[c]
                    == raised(before[c], occurrences(now, c)) by {
                    assert(last[c] == raised(before[c], occurrences(done, c)));
                    lemma_occurs(done, c);
                }
            }
        }
        proof {
            assert(positions(indices@).take(indices@.len() as int) =~= positions(indices@));
            assert(self@ =~= counted(before, key.spec_bytes(), self.rounds()));
        }
    }

    /// Takes `key` out once.
    pub fn remove(&mut self, key: &str)
        requires
            old(self).wf(),
        ensures
            final(self).wf(),
            final(self)@ == uncounted(old(self)@, key.spec_bytes(), old(self).rounds()),
            final(self).rounds() == old(self).rounds(),
    {
        let ghost before = self@;
        let indices: Vec<usize> = self.indices(key);
        let mut i: usize = 0;
        while i < indices.len()
            invariant
                i <= indices@.len(),
                self.hashes == old(self).hashes,
                self.counters@.len() == before.len(),
                forall|j: int| 0 <= j < indices@.len() ==> #[trigger] indices@[j] < before.len(),
                forall|c: int|
                    0 <= c < before.len() ==> #[trigger] self.counters@[c] == lowered(
                        before[c],
                        occurrences(positions(indices@).take(i as int), c),
                    ),
            decreases indices@.len() - i,
        {
            let ghost last = self.counters@;
            let ghost done = positions(indices@).take(i as int);
            let index: usize = indices[i];
            let counter: u8 = self.counters[index];
            self.counters[index] = counter.saturating_sub(1);
            i = i + 1;
            proof {
                let now = positions(indices@).take(i as int);
                assert(now.drop_last() =~= done);
                assert forall|c: int| 0 <= c < before.len() implies #[trigger] self.counters@[c]
                    == lowered(before[c], occurrences(now, c)) by {
                    assert(last[c] == lowered(before[c], occurrences(done, c)));
                    lemma_occurs(done, c);
                }
            }
        }
        proof {
            assert(positions(indices@).take(indices@.len() as int) =~= positions(indices@));
            assert(self@ =~= uncounted(before, key.spec_bytes(), self.rounds()));
        }
    }

    /// Whether every counter that `key` is sent to is above zero.
    pub fn contains(&self, key: &str) -> (found: bool)
        requires
            self.wf(),
        ensures
            found == all_marked(nonzero(self@), key.spec_bytes(), self.rounds()),
    {
        every_probe_set(&self.counters, key, self.hashes)
    }

    /// The number of counters.
    pub fn cells(&self) -> (cells: usize)
        ensures
            cells == self@.len(),
    {
        self.counters.len()
    }

    /// The number of counters that a key is sent to.
    pub fn hashes(&self) -> (hashes: usize)
        ensures
            hashes == self.rounds(),
    {
        self.hashes
    }

    /// The bytes that the counters take, one each.
    pub fn memory_bytes(&self) -> (bytes: usize)
        ensures
            bytes == self@.len(),
    {
        self.counters.len()
    }

    /// Forgets every key.
    pub fn clear(&mut self)
        ensures
            final(self)@ == Seq::new(old(self)@.len(), |i: int| 0u8),
            final(self).rounds() == old(self).rounds(),
            old(self).wf() ==> final(self).wf(),
    {
        zero(&mut self.counters);
    }

    /// The counters that `key` is sent to, round by round.
    fn indices(&self, key: &str) -> (indices: Vec<usize>)
        requires
            self.wf(),
        ensures
            positions(indices@) == probes(key.spec_bytes(), self.rounds(), self@.len() as int),
            forall|i: int| 0 <= i < indices@.len() ==> #[trigger] indices@[i] < self@.len(),
    {
        probe_all(key, self.hashes, self.counters.len())
    }
}

/// Sets every byte to zero.
fn zero(bytes: &mut Vec<u8>)
    ensures
        final(bytes)@ == Seq::new(old(bytes)@.len(), |i: int| 0u8),
{
    let mut i: usize = 0;
    while i < bytes.len()
        invariant
            i <= bytes@.len(),
            bytes@.len() == old(bytes)@.len(),
            forall|j: int| 0 <= j < i ==> #[trigger] bytes@[j] == 0,
        decreases bytes@.len() - i,
    {
        bytes[i] = 0;
        i = i + 1;
    }
    assert(bytes@ =~= Seq::new(old(bytes)@.len(), |j: int| 0u8));
}

/// A cell that a key is sent to is a cell.
proof fn lemma_probe_in_range(key: Seq<u8>, round: int, cells: int)
    requires
        cells > 0,
    ensures
        0 <= probe(key, round, cells) < cells,
{
    reveal(probe);
    let (first, second) = key_hashes(key);
    let spread = first.wrapping_add((round as u64).wrapping_mul(second)) as usize;
    vstd::arithmetic::div_mod::lemma_mod_bound(spread as int, cells);
}

/// No false negatives: a key that was inserted is found.
pub proof fn law_inserted_key_is_found(marks: Seq<bool>, key: Seq<u8>, hashes: nat)
    requires
        marks.len() > 0,
    ensures
        all_marked(mark(marks, key, hashes), key, hashes),
{
    let cells = marks.len() as int;
    assert forall|round: int| 0 <= round < hashes implies mark(marks, key, hashes)[#[trigger] probe(
        key,
        round,
        cells,
    )] by {
        lemma_probe_in_range(key, round, cells);
        assert(probes(key, hashes, cells)[round] == probe(key, round, cells));
    }
}

/// An insert never hides a key: what was found before is found after.
pub proof fn law_insert_keeps_what_is_found(
    marks: Seq<bool>,
    key: Seq<u8>,
    other: Seq<u8>,
    hashes: nat,
)
    requires
        marks.len() > 0,
        all_marked(marks, other, hashes),
    ensures
        all_marked(mark(marks, key, hashes), other, hashes),
{
    let cells = marks.len() as int;
    assert forall|round: int| 0 <= round < hashes implies mark(marks, key, hashes)[#[trigger] probe(
        other,
        round,
        cells,
    )] by {
        lemma_probe_in_range(other, round, cells);
    }
}

/// The order of two inserts does not matter, and repeating one changes nothing.
pub proof fn law_inserts_are_a_union(marks: Seq<bool>, a: Seq<u8>, b: Seq<u8>, hashes: nat)
    ensures
        mark(mark(marks, a, hashes), b, hashes) == mark(mark(marks, b, hashes), a, hashes),
        mark(mark(marks, a, hashes), a, hashes) == mark(marks, a, hashes),
{
    assert(mark(mark(marks, a, hashes), b, hashes) =~= mark(mark(marks, b, hashes), a, hashes));
    assert(mark(mark(marks, a, hashes), a, hashes) =~= mark(marks, a, hashes));
}

/// Inserting a key that is found already changes nothing.
pub proof fn law_insert_of_a_found_key_changes_nothing(
    marks: Seq<bool>,
    key: Seq<u8>,
    hashes: nat,
)
    requires
        all_marked(marks, key, hashes),
    ensures
        mark(marks, key, hashes) == marks,
{
    let spread = probes(key, hashes, marks.len() as int);
    assert forall|i: int| 0 <= i < marks.len() implies #[trigger] mark(marks, key, hashes)[i]
        == marks[i] by {
        if spread.contains(i) {
            let round = choose|round: int| 0 <= round < spread.len() && spread[round] == i;
            assert(marks[probe(key, round, marks.len() as int)]);
        }
    }
    assert(mark(marks, key, hashes) =~= marks);
}

/// Filters are `==` exactly where they have the same rounds and marks: how the
/// marks came about leaves no trace.
pub proof fn law_filters_are_their_marks(a: BloomFilter, b: BloomFilter)
    requires
        a.wf(),
        b.wf(),
    ensures
        vstd::std_specs::cmp::PartialEqSpec::eq_spec(&a, &b) <==> a.rounds() == b.rounds() && a@
            == b@,
{
    a.lemma_wf();
    b.lemma_wf();
    if a.cell_bytes() == b.cell_bytes() {
        assert forall|i: int| 0 <= i < a@.len() implies #[trigger] a@[i] == b@[i] by {
            assert(mark_bytes(a@)[i] == mark_bytes(b@)[i]);
        }
        assert(a@ =~= b@);
    }
}

/// An odd step does not repeat early: with a power of two of cells, and no more
/// rounds than cells, no two rounds send a key to one cell.
pub proof fn law_rounds_do_not_repeat(key: Seq<u8>, a: int, b: int, cells: int, k: nat)
    requires
        cells == pow2(k),
        cells <= usize::MAX,
        0 <= a < b < cells,
    ensures
        probe(key, a, cells) != probe(key, b, cells),
{
    reveal(probe);
    let (first, second) = key_hashes(key);
    lemma_pow2_pos(k);
    lemma_spread(first, second, a as u64, cells, k);
    lemma_spread(first, second, b as u64, cells, k);
    if probe(key, a, cells) == probe(key, b, cells) {
        let (x, y) = (first + a * second, first + b * second);
        vstd::arithmetic::div_mod::lemma_sub_mod_noop(y, x, cells);
        vstd::arithmetic::div_mod::lemma_small_mod(0, cells as nat);
        assert(y - x == (b - a) * second) by (nonlinear_arith)
            requires
                x == first + a * second,
                y == first + b * second,
        ;
        let base = fnv1a(key, SECOND_OFFSET, SECOND_PRIME);
        assert((base | 1) % 2 == 1) by (bit_vector);
        lemma_odd_factor(b - a, second as int, k);
        vstd::arithmetic::div_mod::lemma_small_mod((b - a) as nat, cells as nat);
    }
}

/// A power of two that divides a product with an odd factor divides the other
/// factor.
proof fn lemma_odd_factor(d: int, odd: int, k: nat)
    requires
        odd % 2 == 1,
        (d * odd) % (pow2(k) as int) == 0,
    ensures
        d % (pow2(k) as int) == 0,
{
    crate::arith::lemma_odd_factor(d, odd, k);
}

/// Modulo a power of two of cells, the wrapping sum of a round is the plain one.
proof fn lemma_spread(first: u64, second: u64, round: u64, cells: int, k: nat)
    requires
        cells == pow2(k),
        cells <= usize::MAX,
    ensures
        (first.wrapping_add(round.wrapping_mul(second)) as usize) as int % cells == (first + round
            * second) % cells,
{
    let whole: int = 0x1_0000_0000_0000_0000;
    let step = round.wrapping_mul(second);
    let spread = first.wrapping_add(step);
    lemma_pow2_pos(k);
    let product = round * second;
    assert(step == product % whole);
    assert(spread == (first + step) % whole);
    vstd::arithmetic::div_mod::lemma_add_mod_noop_right(first as int, product, whole);
    assert(spread == (first + product) % whole);
    lemma2_to64();
    lemma2_to64_rest();
    if k >= 64 {
        if k > 64 {
            lemma_pow2_strictly_increases(64, k);
        }
    } else {
        lemma_pow2_adds(k, (64 - k) as nat);
        lemma_pow2_pos((64 - k) as nat);
        vstd::arithmetic::div_mod::lemma_mod_mod(
            first + product,
            cells,
            pow2((64 - k) as nat) as int,
        );
        let cut = spread as usize;
        assert((usize::BITS == 64 ==> cut as u64 == spread) && (usize::BITS == 32 ==> cut as u64
            == spread % 0x1_0000_0000)) by (bit_vector)
            requires
                cut == spread as usize,
        ;
        if usize::BITS == 32 {
            if k >= 32 {
                if k > 32 {
                    lemma_pow2_strictly_increases(32, k);
                }
            } else {
                lemma_pow2_adds(k, (32 - k) as nat);
                lemma_pow2_pos((32 - k) as nat);
                vstd::arithmetic::div_mod::lemma_mod_mod(
                    spread as int,
                    cells,
                    pow2((32 - k) as nat) as int,
                );
            }
        }
    }
}

/// An empty filter, such as a cleared one, finds no key.
pub proof fn law_empty_filter_finds_nothing(marks: Seq<bool>, key: Seq<u8>, hashes: nat)
    requires
        marks.len() > 0,
        hashes > 0,
        forall|i: int| 0 <= i < marks.len() ==> !#[trigger] marks[i],
    ensures
        !all_marked(marks, key, hashes),
{
    lemma_probe_in_range(key, 0, marks.len() as int);
}

/// No false negatives while counting: a key that was inserted is found, and so
/// is every key that was found before.
pub proof fn law_counted_keys_are_found(
    counters: Seq<u8>,
    key: Seq<u8>,
    other: Seq<u8>,
    hashes: nat,
)
    requires
        counters.len() > 0,
        other == key || all_marked(nonzero(counters), other, hashes),
    ensures
        all_marked(nonzero(counted(counters, key, hashes)), other, hashes),
{
    let cells = counters.len() as int;
    let spread = probes(key, hashes, cells);
    assert forall|round: int| 0 <= round < hashes implies nonzero(
        counted(counters, key, hashes),
    )[#[trigger] probe(other, round, cells)] by {
        let at = probe(other, round, cells);
        lemma_probe_in_range(other, round, cells);
        lemma_occurs(spread, at);
        if other == key {
            assert(spread[round] == at);
        } else {
            assert(nonzero(counters)[probe(other, round, nonzero(counters).len() as int)]);
        }
    }
}

/// A removal undoes the insert before it, unless a counter saturated.
pub proof fn law_remove_undoes_insert(counters: Seq<u8>, key: Seq<u8>, hashes: nat)
    requires
        forall|i: int|
            0 <= i < counters.len() ==> #[trigger] counters[i] + occurrences(
                probes(key, hashes, counters.len() as int),
                i,
            ) <= 255,
    ensures
        uncounted(counted(counters, key, hashes), key, hashes) == counters,
{
    let after = counted(counters, key, hashes);
    assert forall|i: int| 0 <= i < counters.len() implies #[trigger] uncounted(
        after,
        key,
        hashes,
    )[i] == counters[i] by {
        lemma_occurs(probes(key, hashes, counters.len() as int), i);
        assert(counters[i] + occurrences(probes(key, hashes, counters.len() as int), i) <= 255);
    }
    assert(uncounted(after, key, hashes) =~= counters);
}

/// The order of two inserts does not matter, saturated counters included.
pub proof fn law_counted_inserts_commute(counters: Seq<u8>, a: Seq<u8>, b: Seq<u8>, hashes: nat)
    ensures
        counted(counted(counters, a, hashes), b, hashes) == counted(
            counted(counters, b, hashes),
            a,
            hashes,
        ),
{
    let cells = counters.len() as int;
    let left = counted(counted(counters, a, hashes), b, hashes);
    let right = counted(counted(counters, b, hashes), a, hashes);
    assert forall|i: int| 0 <= i < counters.len() implies #[trigger] left[i] == right[i] by {
        lemma_occurs(probes(a, hashes, cells), i);
        lemma_occurs(probes(b, hashes, cells), i);
    }
    assert(left =~= right);
}

/// The hash of a key takes in every byte in turn, the last one last: it is the
/// hash of the bytes before, with the byte mixed in and multiplied modulo
/// `2^64`.
pub proof fn law_hash_takes_in_every_byte(bytes: Seq<u8>, byte: u8, offset: u64, prime: u64)
    ensures
        fnv1a(Seq::empty(), offset, prime) == offset,
        fnv1a(bytes.push(byte), offset, prime) == ((fnv1a(bytes, offset, prime) ^ (byte as u64))
            * prime) % 0x1_0000_0000_0000_0000,
{
    assert(bytes.push(byte).drop_last() =~= bytes);
}

/// Different states stay different through a byte, and different bytes make
/// different states.
proof fn lemma_mixed_apart(s: u64, x: u64, t: u64, y: u64, prime: u64)
    requires
        prime % 2 == 1,
        s != t && x == y || s == t && x != y,
    ensures
        (s ^ x).wrapping_mul(prime) != (t ^ y).wrapping_mul(prime),
{
    let (a, b) = (s ^ x, t ^ y);
    assert(a != b) by (bit_vector)
        requires
            s != t && x == y || s == t && x != y,
            a == s ^ x,
            b == t ^ y,
    ;
    if a.wrapping_mul(prime) == b.wrapping_mul(prime) {
        crate::arith::lemma_odd_product_apart(a as int, b as int, prime as int);
    }
}

proof fn lemma_one_byte_apart(a: Seq<u8>, b: Seq<u8>, at: int, offset: u64, prime: u64)
    requires
        prime % 2 == 1,
        a.len() == b.len(),
        0 <= at < a.len(),
        a[at] != b[at],
        forall|i: int| 0 <= i < a.len() && i != at ==> #[trigger] a[i] == b[i],
    ensures
        fnv1a(a, offset, prime) != fnv1a(b, offset, prime),
    decreases a.len(),
{
    let (x, y) = (a.drop_last(), b.drop_last());
    let last = a.len() - 1;
    if at == last {
        assert(x =~= y);
    } else {
        assert forall|i: int| 0 <= i < x.len() && i != at implies #[trigger] x[i] == y[i] by {
            assert(a[i] == b[i]);
        }
        lemma_one_byte_apart(x, y, at, offset, prime);
        assert(a[last] == b[last]);
    }
    lemma_mixed_apart(
        fnv1a(x, offset, prime),
        a.last() as u64,
        fnv1a(y, offset, prime),
        b.last() as u64,
        prime,
    );
}

/// Every byte of a key counts: two keys of one length that differ in one byte,
/// wherever it is, have different hashes, so they do not share all their rounds
/// by having been cut short.
pub proof fn law_every_byte_of_a_key_counts(a: Seq<u8>, b: Seq<u8>, at: int)
    requires
        a.len() == b.len(),
        0 <= at < a.len(),
        a[at] != b[at],
        forall|i: int| 0 <= i < a.len() && i != at ==> #[trigger] a[i] == b[i],
    ensures
        key_hashes(a).0 != key_hashes(b).0,
{
    lemma_one_byte_apart(a, b, at, FIRST_OFFSET, FIRST_PRIME);
}

/// The rounds are those of double hashing: they start at the first hash of the
/// key and step by the second, modulo `2^64`, folded into the cells. The second
/// is odd.
pub proof fn law_rounds_are_double_hashing(key: Seq<u8>, round: int, hashes: nat, cells: int)
    requires
        0 <= round < hashes,
        hashes <= usize::MAX,
        cells > 0,
    ensures
        key_hashes(key).0 == fnv1a(key, 1469598103934665603, 1099511628211),
        key_hashes(key).1 == fnv1a(key, 1099511628211, 14029467366897019727) | 1,
        probe(key, round, cells) == ((((key_hashes(key).0 + round * key_hashes(key).1)
            % 0x1_0000_0000_0000_0000) as u64) as usize) as int % cells,
        0 <= probe(key, round, cells) < cells,
        probes(key, hashes, cells).len() == hashes,
        probes(key, hashes, cells)[round] == probe(key, round, cells),
{
    reveal(probe);
    lemma_probe_in_range(key, round, cells);
    let (first, second) = key_hashes(key);
    let whole: int = 0x1_0000_0000_0000_0000;
    let step = (round as u64).wrapping_mul(second);
    let product = round * second;
    assert(step == product % whole);
    assert(first.wrapping_add(step) == (first + step) % whole);
    vstd::arithmetic::div_mod::lemma_add_mod_noop_right(first as int, product, whole);
}

/// An insert marks the cells of the rounds of its key, and no others.
pub proof fn law_insert_marks_its_rounds(marks: Seq<bool>, key: Seq<u8>, hashes: nat, i: int)
    requires
        0 <= i < marks.len(),
    ensures
        mark(marks, key, hashes).len() == marks.len(),
        mark(marks, key, hashes)[i] <==> marks[i] || exists|round: int|
            0 <= round < hashes && #[trigger] probe(key, round, marks.len() as int) == i,
{
    let cells = marks.len() as int;
    let spread = probes(key, hashes, cells);
    if spread.contains(i) {
        let round = choose|round: int| 0 <= round < spread.len() && spread[round] == i;
        assert(probe(key, round, cells) == i);
    }
    if exists|round: int| 0 <= round < hashes && #[trigger] probe(key, round, cells) == i {
        let round = choose|round: int|
            0 <= round < hashes && #[trigger] probe(key, round, cells) == i;
        assert(spread[round] == i);
    }
}

/// A key is found exactly where the cell of each of its rounds is marked.
pub proof fn law_found_means_every_round(marks: Seq<bool>, key: Seq<u8>, hashes: nat)
    ensures
        all_marked(marks, key, hashes) <==> forall|round: int|
            0 <= round < hashes ==> marks[#[trigger] probe(key, round, marks.len() as int)],
{
}

/// One round more is one more occurrence of its cell, and of no other.
pub proof fn law_rounds_are_counted(cells: Seq<int>, cell: int, c: int)
    ensures
        occurrences(Seq::empty(), c) == 0,
        occurrences(cells.push(cell), c) == occurrences(cells, c) + if c == cell {
            1int
        } else {
            0
        },
{
    assert(cells.push(cell).drop_last() =~= cells);
}

/// A counter moves by the rounds of the key that reach it: an insert raises it by
/// as many, up to 255, and a removal lowers it by as many, down to zero.
pub proof fn law_counters_move_by_the_rounds(
    counters: Seq<u8>,
    key: Seq<u8>,
    hashes: nat,
    i: int,
)
    requires
        0 <= i < counters.len(),
    ensures
        ({
            let times = occurrences(probes(key, hashes, counters.len() as int), i);
            let up = counted(counters, key, hashes);
            let down = uncounted(counters, key, hashes);
            &&& up.len() == counters.len() && down.len() == counters.len()
            &&& times >= 0
            &&& counters[i] + times <= 255 ==> up[i] == counters[i] + times
            &&& counters[i] + times >= 255 ==> up[i] == 255
            &&& counters[i] - times >= 0 ==> down[i] == counters[i] - times
            &&& counters[i] - times <= 0 ==> down[i] == 0
        }),
{
    lemma_occurs(probes(key, hashes, counters.len() as int), i);
}

/// A counter marks its cell exactly while it is above zero.
pub proof fn law_counters_above_zero_are_marks(counters: Seq<u8>, i: int)
    requires
        0 <= i < counters.len(),
    ensures
        nonzero(counters).len() == counters.len(),
        nonzero(counters)[i] <==> counters[i] > 0,
{
}

} // verus!
