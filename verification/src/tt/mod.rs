//! Fixed-size, depth-preferred transposition table.

use vstd::prelude::*;

use crate::moves::Move;

verus! {

#[derive(Clone, Copy, Debug, PartialEq, Eq, Structural)]
pub enum Bound {
    Exact,
    Lower,
    Upper,
}

#[derive(Clone, Copy, Debug)]
pub struct TTEntry {
    pub key: u64,
    pub depth: i16,
    pub score: i32,
    pub bound: Bound,
    pub best: Move,
    pub generation: u8,
    pub valid: bool,
}

/// An empty slot: invalid, depth -1, a null best move, everything else 0.
pub open spec fn is_empty_entry(e: TTEntry) -> bool {
    &&& e.key == 0
    &&& e.depth == -1
    &&& e.score == 0
    &&& e.bound == Bound::Upper
    &&& e.best.is_null_spec()
    &&& e.generation == 0
    &&& !e.valid
}

impl Default for TTEntry {
    fn default() -> (e: Self)
        ensures
            is_empty_entry(e),
    {
        TTEntry { key: 0, depth: -1, score: 0, bound: Bound::Upper, best: Move::null(), generation: 0, valid: false }
    }
}

/// The abstract table: its slots and the current search generation.
pub struct TableModel {
    pub entries: Seq<TTEntry>,
    pub generation: u8,
}

pub struct TranspositionTable {
    entries: Vec<TTEntry>,
    mask: usize,
    generation: u8,
}

impl View for TranspositionTable {
    type V = TableModel;

    closed spec fn view(&self) -> TableModel {
        TableModel { entries: self.entries@, generation: self.generation }
    }
}

/// `n` is a power of two.
pub open spec fn is_pow2(n: nat) -> bool
    decreases n,
{
    if n <= 1 {
        n == 1
    } else {
        n % 2 == 0 && is_pow2(n / 2)
    }
}

/// The size of one slot in bytes.
pub open spec fn entry_bytes() -> int {
    let s = vstd::layout::size_of::<TTEntry>() as int;
    if s == 0 { 1 } else { s }
}

/// The number of slots for a table of `megabytes`: the largest power of
/// two of slots that fits, and at least one.
pub open spec fn slot_count(megabytes: usize) -> nat {
    let bytes: int = if megabytes < 1 { 1048576int } else { megabytes * 1048576int };
    let bytes = if bytes > usize::MAX { usize::MAX as int } else { bytes };
    let requested = if bytes / entry_bytes() < 1 { 1 } else { bytes / entry_bytes() };
    choose|c: nat| is_pow2(c) && c <= requested && requested < 2 * c
}

/// Storing keeps the slot's entry only when it is a valid entry of another
/// key from this search that is strictly deeper than the new one.
pub open spec fn replaces(old: TTEntry, key: u64, depth: i16, generation: u8) -> bool {
    !old.valid || old.key == key || old.generation != generation || depth >= old.depth
}

/// What a probe of `key` finds when the key's slot is `i`.
pub open spec fn probe_model(t: TableModel, i: int, key: u64) -> Option<TTEntry> {
    let e = t.entries[i];
    if e.valid && e.key == key { Some(e) } else { None }
}

/// The table after a store of `key` into slot `i`.
pub open spec fn store_model(t: TableModel, i: int, key: u64, depth: i16, score: i32, bound: Bound, best: Move) -> TableModel {
    let new_entry = TTEntry { key, depth, score, bound, best, generation: t.generation, valid: true };
    if replaces(t.entries[i], key, depth, t.generation) {
        TableModel { entries: t.entries.update(i, new_entry), generation: t.generation }
    } else {
        t
    }
}

/// How many valid entries are among the first `n` slots.
pub open spec fn valid_count(entries: Seq<TTEntry>, n: nat) -> nat
    decreases n,
{
    if n == 0 {
        0
    } else {
        valid_count(entries, (n - 1) as nat) + if entries[n - 1].valid { 1nat } else { 0nat }
    }
}

proof fn lemma_valid_count_bound(entries: Seq<TTEntry>, n: nat)
    ensures
        valid_count(entries, n) <= n,
    decreases n,
{
    if n > 0 {
        lemma_valid_count_bound(entries, (n - 1) as nat);
    }
}

proof fn lemma_pow2_double(c: nat)
    requires
        is_pow2(c),
    ensures
        is_pow2(2 * c),
        c >= 1,
    decreases c,
{
    if c > 1 {
        lemma_pow2_double(c / 2);
        assert((2 * c) / 2 == c);
    } else {
        assert(2 * c == 2);
        assert(is_pow2(1));
    }
}

proof fn lemma_pow2_unique(a: nat, b: nat, r: nat)
    requires
        is_pow2(a),
        is_pow2(b),
        a <= r < 2 * a,
        b <= r < 2 * b,
    ensures
        a == b,
    decreases a,
{
    if a > 1 && b > 1 {
        lemma_pow2_unique(a / 2, b / 2, r / 2);
    } else if a == 1 && b > 1 {
        assert(b % 2 == 0);
    } else if b == 1 && a > 1 {
        assert(a % 2 == 0);
    }
}

/// A power of two and its low-bit mask: `k & (n - 1) == k % n`.
proof fn lemma_mask_mod(k: u64, m: usize)
    ensures
        (k as usize) & m <= m,
{
    assert((k as usize) & m <= m) by (bit_vector);
}

impl TranspositionTable {
    /// Table invariant: a power-of-two number of slots, the mask that
    /// selects one of them, and every valid entry in its own key's slot.
    pub closed spec fn wf(&self) -> bool {
        &&& is_pow2(self.entries@.len())
        &&& self.mask as int == self.entries@.len() - 1
        &&& forall|i: int|
            0 <= i < self.entries@.len() && (#[trigger] self.entries@[i]).valid ==> ((self.entries@[i].key as usize) & self.mask) as int
                == i
    }

    /// Every valid entry sits in the slot of its own key, so a probe of
    /// that key finds it.
    pub proof fn lemma_entries_in_slots(&self)
        requires
            self.wf(),
        ensures
            forall|i: int|
                0 <= i < self@.entries.len() && (#[trigger] self@.entries[i]).valid ==> self.slot(self@.entries[i].key) == i
                    && probe_model(self@, self.slot(self@.entries[i].key), self@.entries[i].key) == Some(self@.entries[i]),
    {
    }

    pub closed spec fn slot(&self, key: u64) -> int {
        ((key as usize) & self.mask) as int
    }

    pub proof fn lemma_slot(&self, key: u64)
        requires
            self.wf(),
        ensures
            0 <= self.slot(key) < self@.entries.len(),
            self@.entries.len() >= 1,
    {
        lemma_mask_mod(key, self.mask);
        lemma_pow2_double(self.entries@.len());
    }

    /// A table of the largest power of two of slots that fits in
    /// `megabytes` (at least one slot), all empty, at generation 0.
    pub fn new(megabytes: usize) -> (t: Self)
        ensures
            t.wf(),
            t@.entries.len() == slot_count(megabytes),
            forall|i: int| 0 <= i < t@.entries.len() ==> is_empty_entry(#[trigger] t@.entries[i]),
            t@.generation == 0,
    {
        let mb = if megabytes < 1 { 1 } else { megabytes };
        let bytes: usize = if mb > usize::MAX / (1024 * 1024) { usize::MAX } else { mb * (1024 * 1024) };
        let raw_size = core::mem::size_of::<TTEntry>();
        let size: usize = if raw_size == 0 { 1 } else { raw_size };
        let requested: usize = if bytes / size < 1 { 1 } else { bytes / size };
        let mut count: usize = 1;
        proof {
            assert(is_pow2(1));
        }
        while count <= requested / 2
            invariant
                1 <= count <= requested,
                is_pow2(count as nat),
            decreases requested - count,
        {
            proof {
                lemma_pow2_double(count as nat);
            }
            count = count * 2;
        }
        proof {
            assert(requested < 2 * count);
            let c = slot_count(megabytes);
            assert(is_pow2(count as nat) && count <= requested && requested < 2 * count);
            let c = choose|c: nat| is_pow2(c) && c <= requested && requested < 2 * c;
            lemma_pow2_unique(c, count as nat, requested as nat);
        }
        let mut entries: Vec<TTEntry> = Vec::new();
        let mut i: usize = 0;
        while i < count
            invariant
                i <= count,
                entries@.len() == i,
                forall|j: int| 0 <= j < i ==> is_empty_entry(#[trigger] entries@[j]),
            decreases count - i,
        {
            entries.push(TTEntry::default());
            i = i + 1;
        }
        TranspositionTable { entries, mask: count - 1, generation: 0 }
    }

    /// A one-slot table, a stand-in while the real one is lent out.
    pub(crate) fn placeholder() -> (t: Self)
        ensures
            t.wf(),
    {
        let mut entries: Vec<TTEntry> = Vec::new();
        entries.push(TTEntry::default());
        proof {
            assert(is_pow2(1));
        }
        TranspositionTable { entries, mask: 0, generation: 0 }
    }

    /// Replaces the table by a new empty one of the given size.
    pub fn resize(&mut self, megabytes: usize)
        ensures
            final(self).wf(),
            final(self)@.entries.len() == slot_count(megabytes),
            forall|i: int| 0 <= i < final(self)@.entries.len() ==> is_empty_entry(#[trigger] final(self)@.entries[i]),
            final(self)@.generation == 0,
    {
        *self = Self::new(megabytes);
    }

    /// Empties every slot and resets the generation.
    pub fn clear(&mut self)
        requires
            old(self).wf(),
        ensures
            final(self).wf(),
            final(self)@.entries.len() == old(self)@.entries.len(),
            forall|i: int| 0 <= i < final(self)@.entries.len() ==> is_empty_entry(#[trigger] final(self)@.entries[i]),
            final(self)@.generation == 0,
    {
        let n = self.entries.len();
        let mut i: usize = 0;
        while i < n
            invariant
                i <= n,
                n == self.entries@.len(),
                n == old(self).entries@.len(),
                self.mask == old(self).mask,
                forall|j: int| 0 <= j < i ==> is_empty_entry(#[trigger] self.entries@[j]),
            decreases n - i,
        {
            self.entries.set(i, TTEntry::default());
            i = i + 1;
        }
        self.generation = 0;
    }

    /// Starts a new search: the generation advances, wrapping at 256.
    pub fn new_search(&mut self)
        requires
            old(self).wf(),
        ensures
            final(self).wf(),
            final(self)@.entries == old(self)@.entries,
            final(self)@.generation == (if old(self)@.generation == 255 { 0 } else { old(self)@.generation + 1 }),
    {
        self.generation = if self.generation == 255 { 0 } else { self.generation + 1 };
    }

    fn index(&self, key: u64) -> (r: usize)
        requires
            self.wf(),
        ensures
            r == self.slot(key),
            r < self@.entries.len(),
    {
        proof {
            self.lemma_slot(key);
        }
        (key as usize) & self.mask
    }

    /// The entry stored for `key`, if its slot holds a valid entry of that key.
    pub fn probe(&self, key: u64) -> (r: Option<TTEntry>)
        requires
            self.wf(),
        ensures
            r == probe_model(self@, self.slot(key), key),
    {
        let entry = self.entries[self.index(key)];
        if entry.valid && entry.key == key {
            Some(entry)
        } else {
            None
        }
    }

    /// Stores a search result in the key's slot, unless the slot holds a
    /// strictly deeper entry of another key from the current search.
    pub fn store(&mut self, key: u64, depth: i16, score: i32, bound: Bound, best: Move)
        requires
            old(self).wf(),
        ensures
            final(self).wf(),
            final(self).slot(key) == old(self).slot(key),
            final(self)@ == store_model(old(self)@, old(self).slot(key), key, depth, score, bound, best),
    {
        let idx = self.index(key);
        let old = self.entries[idx];
        if !old.valid || old.key == key || old.generation != self.generation || depth >= old.depth {
            self.entries.set(idx, TTEntry { key, depth, score, bound, best, generation: self.generation, valid: true });
        }
    }

    /// Permille of the first thousand slots (or of all, when fewer) that
    /// hold an entry, UCI's `hashfull` convention.
    pub fn hashfull(&self) -> (r: u16)
        requires
            self.wf(),
        ensures
            ({
                let n = if self@.entries.len() < 1000 { self@.entries.len() } else { 1000 };
                r == valid_count(self@.entries, n) * 1000 / n
            }),
    {
        proof {
            lemma_pow2_double(self.entries@.len());
        }
        let sample: usize = if self.entries.len() < 1000 { self.entries.len() } else { 1000 };
        let mut used: usize = 0;
        let mut i: usize = 0;
        while i < sample
            invariant
                i <= sample,
                sample <= self.entries@.len(),
                sample <= 1000,
                used == valid_count(self.entries@, i as nat),
            decreases sample - i,
        {
            proof {
                lemma_valid_count_bound(self.entries@, i as nat);
            }
            if self.entries[i].valid {
                used = used + 1;
            }
            i = i + 1;
        }
        proof {
            lemma_valid_count_bound(self.entries@, sample as nat);
            assert(used as int * 1000 / sample as int <= 1000) by (nonlinear_arith)
                requires
                    used <= sample,
                    sample >= 1,
            ;
        }
        ((used * 1000) / sample) as u16
    }

    /// The table's size in whole megabytes.
    pub fn megabytes(&self) -> (r: usize)
        requires
            self.wf(),
            self@.entries.len() * vstd::layout::size_of::<TTEntry>() <= usize::MAX,
        ensures
            r == self@.entries.len() * vstd::layout::size_of::<TTEntry>() / (1024 * 1024),
    {
        let size = core::mem::size_of::<TTEntry>();
        proof {
            vstd::arithmetic::mul::lemma_mul_nonnegative(self.entries@.len() as int, size as int);
        }
        self.entries.len() * size / (1024 * 1024)
    }
}

/// Reading back what was written: a probe of the key just stored finds the
/// stored entry, unless the slot kept a strictly deeper entry of another key
/// from the current search; a store never disturbs the other slots.
pub proof fn lemma_store_then_probe(t: TableModel, i: int, j: int, key: u64, other: u64, depth: i16, score: i32, bound: Bound, best: Move)
    requires
        0 <= i < t.entries.len(),
        0 <= j < t.entries.len(),
    ensures
        replaces(t.entries[i], key, depth, t.generation) ==> probe_model(store_model(t, i, key, depth, score, bound, best), i, key)
            == Some(TTEntry { key, depth, score, bound, best, generation: t.generation, valid: true }),
        t.entries[i].valid && t.entries[i].key == key ==> replaces(t.entries[i], key, depth, t.generation),
        j != i ==> probe_model(store_model(t, i, key, depth, score, bound, best), j, other) == probe_model(t, j, other),
{
}

} // verus!
