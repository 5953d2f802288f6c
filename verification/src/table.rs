//! The open-addressing hash table: a key-to-value store over a contiguous
//! entry array in one allocator-managed block.
//!
//! Each entry takes three 8-byte words: an occupancy flag, a key slot and a
//! value slot. Collisions resolve by linear probing with wraparound; the
//! table rehashes into a block of twice the entry count when an insert would
//! reach a load factor of 0.7, and rehashes at its current entry count after
//! every deletion, which repairs the probe chains without tombstones.
//!
//! Keys are 64-bit words that hash to themselves, the way a dynamic
//! language's small integers do; all the machinery verified here — probing,
//! chain repair, growth — is independent of how good the hash is.

use crate::allocator::Allocator;
use crate::block::word_at;
use crate::block::MemoryBlock;
use crate::KeyError;
use vstd::prelude::*;

verus! {

/// Entry count of a fresh table's block.
pub const INITIAL_TABLE_CAPACITY: usize = 8;

/// Bytes per entry: occupancy flag word, key word, value word.
pub const TABLE_ENTRY_SIZE: usize = 24;

/// The occupancy flag of entry `i`: any nonzero flag word means occupied.
pub open spec fn slot_occupied(bytes: Seq<u8>, i: int) -> bool {
    word_at(bytes, 3 * i) != 0
}

/// The key word of entry `i`.
pub open spec fn slot_key(bytes: Seq<u8>, i: int) -> u64 {
    word_at(bytes, 3 * i + 1)
}

/// The value word of entry `i`.
pub open spec fn slot_value(bytes: Seq<u8>, i: int) -> u64 {
    word_at(bytes, 3 * i + 2)
}

/// The index where probing for `key` starts: the key's hash (itself) modulo
/// the entry count.
pub open spec fn probe_home(key: u64, cap: int) -> int
    recommends
        cap > 0,
{
    (key as int) % cap
}

/// How many forward steps (with wraparound) the probe takes from `h` to
/// reach slot `i`; both lie in `[0, cap)`.
pub open spec fn probe_dist(h: int, i: int, cap: int) -> int {
    if i >= h {
        i - h
    } else {
        i + cap - h
    }
}

/// Some entry among the first `n` is occupied and holds `key`.
pub open spec fn contains_slot_in(bytes: Seq<u8>, n: int, key: u64) -> bool {
    exists|i: int| 0 <= i < n && slot_occupied(bytes, i) && slot_key(bytes, i) == key
}

/// The value stored beside `key`, well defined when the occupied keys are
/// distinct and some entry holds `key`.
pub open spec fn value_of(bytes: Seq<u8>, cap: int, key: u64) -> u64 {
    let i = choose|i: int| 0 <= i < cap && slot_occupied(bytes, i) && slot_key(bytes, i) == key;
    slot_value(bytes, i)
}

/// The table's contents as a map from keys to values.
pub open spec fn table_map(bytes: Seq<u8>, cap: int) -> Map<u64, u64> {
    Map::new(
        |k: u64| contains_slot_in(bytes, cap, k),
        |k: u64| value_of(bytes, cap, k),
    )
}

/// No two occupied entries hold the same key.
pub open spec fn keys_distinct(bytes: Seq<u8>, cap: int) -> bool {
    forall|i: int, j: int|
        0 <= i < cap && 0 <= j < cap && i != j && slot_occupied(bytes, i) && slot_occupied(
            bytes,
            j,
        ) ==> slot_key(bytes, i) != slot_key(bytes, j)
}

/// The probe-chain invariant: every slot the probe for an occupied entry's
/// key walks through before reaching that entry is itself occupied, so a
/// lookup never meets an unoccupied slot before the entry it looks for.
pub open spec fn chain_ok(bytes: Seq<u8>, cap: int) -> bool {
    forall|i: int, s: int|
        #![trigger slot_occupied(bytes, i), slot_occupied(bytes, s)]
        0 <= i < cap && 0 <= s < cap && slot_occupied(bytes, i) && probe_dist(
            probe_home(slot_key(bytes, i), cap),
            s,
            cap,
        ) < probe_dist(probe_home(slot_key(bytes, i), cap), i, cap) ==> slot_occupied(bytes, s)
}

/// How many of the first `n` entries are occupied.
pub open spec fn occupied_count(bytes: Seq<u8>, n: int) -> nat
    decreases n,
{
    if n <= 0 {
        0
    } else {
        occupied_count(bytes, n - 1) + if slot_occupied(bytes, n - 1) {
            1nat
        } else {
            0nat
        }
    }
}

/// The occupied count over a prefix never exceeds a longer prefix's count,
/// nor the prefix length.
pub proof fn lemma_occupied_count_monotonic(bytes: Seq<u8>, m: int, n: int)
    requires
        0 <= m <= n,
    ensures
        occupied_count(bytes, m) <= occupied_count(bytes, n) <= n,
    decreases n,
{
    if n > 0 {
        if m == n {
            lemma_occupied_count_monotonic(bytes, n - 1, n - 1);
        } else {
            lemma_occupied_count_monotonic(bytes, m, n - 1);
        }
    }
}

/// If every one of the first `n` entries is occupied, the count says so.
pub proof fn lemma_occupied_count_all(bytes: Seq<u8>, n: int)
    requires
        0 <= n,
        forall|i: int| 0 <= i < n ==> slot_occupied(bytes, i),
    ensures
        occupied_count(bytes, n) == n,
    decreases n,
{
    if n > 0 {
        lemma_occupied_count_all(bytes, n - 1);
    }
}

/// If none of the first `n` entries is occupied, the count is zero.
pub proof fn lemma_occupied_count_none(bytes: Seq<u8>, n: int)
    requires
        forall|i: int| 0 <= i < n ==> !slot_occupied(bytes, i),
    ensures
        occupied_count(bytes, n) == 0,
    decreases n,
{
    if n > 0 {
        lemma_occupied_count_none(bytes, n - 1);
    }
}

/// Two buffers that agree on every occupancy flag but entry `i`'s have
/// occupied counts that differ exactly by that entry's two flags.
pub proof fn lemma_occupied_count_update(b0: Seq<u8>, b1: Seq<u8>, n: int, i: int)
    requires
        forall|j: int| 0 <= j < n && j != i ==> slot_occupied(b0, j) == slot_occupied(b1, j),
    ensures
        occupied_count(b1, n) + (if 0 <= i < n && slot_occupied(b0, i) {
            1int
        } else {
            0int
        }) == occupied_count(b0, n) + (if 0 <= i < n && slot_occupied(b1, i) {
            1int
        } else {
            0int
        }),
    decreases n,
{
    if n > 0 {
        lemma_occupied_count_update(b0, b1, n - 1, i);
    }
}

/// An occupied entry's key is in the table, bound to that entry's value —
/// the `choose` under `value_of` can only pick this entry once the occupied
/// keys are distinct.
pub proof fn lemma_value_at_slot(bytes: Seq<u8>, cap: int, s: int)
    requires
        keys_distinct(bytes, cap),
        0 <= s < cap,
        slot_occupied(bytes, s),
    ensures
        contains_slot_in(bytes, cap, slot_key(bytes, s)),
        value_of(bytes, cap, slot_key(bytes, s)) == slot_value(bytes, s),
        table_map(bytes, cap).contains_key(slot_key(bytes, s)),
        table_map(bytes, cap)[slot_key(bytes, s)] == slot_value(bytes, s),
{
    let k = slot_key(bytes, s);
    assert(contains_slot_in(bytes, cap, k));
    let s2 = choose|i: int| 0 <= i < cap && slot_occupied(bytes, i) && slot_key(bytes, i) == k;
    assert(s2 == s);
}

/// A store to one word of entry `i` leaves every other entry's occupancy,
/// key and value unchanged, and the untouched words of entry `i` as well.
pub proof fn lemma_slot_frame(b0: Seq<u8>, b1: Seq<u8>, cap: int, i: int, c: int)
    requires
        b0.len() == 24 * cap,
        b1.len() == b0.len(),
        0 <= i < cap,
        0 <= c < 3,
        forall|j: int| 0 <= j && 8 * j + 8 <= b0.len() && j != 3 * i + c ==> word_at(b1, j)
            == word_at(b0, j),
    ensures
        forall|s: int|
            0 <= s < cap && s != i ==> slot_occupied(b1, s) == slot_occupied(b0, s) && slot_key(
                b1,
                s,
            ) == slot_key(b0, s) && slot_value(b1, s) == slot_value(b0, s),
        c != 0 ==> slot_occupied(b1, i) == slot_occupied(b0, i),
        c != 1 ==> slot_key(b1, i) == slot_key(b0, i),
        c != 2 ==> slot_value(b1, i) == slot_value(b0, i),
{
    assert forall|s: int| 0 <= s < cap && s != i implies slot_occupied(b1, s) == slot_occupied(
        b0,
        s,
    ) && slot_key(b1, s) == slot_key(b0, s) && slot_value(b1, s) == slot_value(b0, s) by {
        assert(word_at(b1, 3 * s) == word_at(b0, 3 * s));
        assert(word_at(b1, 3 * s + 1) == word_at(b0, 3 * s + 1));
        assert(word_at(b1, 3 * s + 2) == word_at(b0, 3 * s + 2));
    }
}

/// A key-to-value store over a contiguous entry array in one
/// allocator-managed block, with linear probing.
pub struct Table {
    block: MemoryBlock,
    capacity: usize,
    count: usize,
}

impl Table {
    /// The table's contents as a map from keys to values.
    pub closed spec fn view(&self) -> Map<u64, u64> {
        table_map(self.block@, self.capacity as int)
    }

    /// The number of entry slots the current block provides.
    pub closed spec fn spec_capacity(&self) -> nat {
        self.capacity as nat
    }

    /// The number of occupied entries.
    pub closed spec fn spec_count(&self) -> nat {
        self.count as nat
    }

    /// The invariant that holds between operations, probe chains aside: the
    /// block holds exactly `capacity` entries, `count` counts the occupied
    /// ones, occupied keys are distinct, and the load factor stays strictly
    /// below the 0.7 rehash trigger.
    closed spec fn wf_base(&self) -> bool {
        &&& self.block@.len() == 24 * self.capacity
        &&& self.capacity >= INITIAL_TABLE_CAPACITY
        &&& 24 * self.capacity <= usize::MAX
        &&& self.count == occupied_count(self.block@, self.capacity as int)
        &&& 10 * self.count < 7 * self.capacity
        &&& keys_distinct(self.block@, self.capacity as int)
    }

    /// The table's full invariant: `wf_base` and the probe-chain invariant.
    pub closed spec fn wf(&self) -> bool {
        &&& self.wf_base()
        &&& chain_ok(self.block@, self.capacity as int)
    }

    /// A new, empty table over a block for `INITIAL_TABLE_CAPACITY` entries.
    /// The occupancy flags are cleared explicitly, so a reused cache block's
    /// stale bytes can never read as occupied entries.
    pub fn new(alloc: &mut Allocator) -> (t: Table)
        requires
            old(alloc).wf(),
        ensures
            final(alloc).wf(),
            final(alloc).global_cache() == old(alloc).global_cache(),
            t.wf(),
            t@ == Map::<u64, u64>::empty(),
            t.spec_capacity() == INITIAL_TABLE_CAPACITY,
            t.spec_count() == 0,
    {
        let block = alloc.allocate(TABLE_ENTRY_SIZE * INITIAL_TABLE_CAPACITY);
        let block = clear_flags(block, INITIAL_TABLE_CAPACITY);
        let t = Table { block, capacity: INITIAL_TABLE_CAPACITY, count: 0 };
        proof {
            lemma_occupied_count_none(t.block@, INITIAL_TABLE_CAPACITY as int);
            assert(t@ =~= Map::<u64, u64>::empty());
        }
        t
    }

    /// The number of occupied entries.
    pub fn len(&self) -> (n: usize)
        ensures
            n == self.spec_count(),
    {
        self.count
    }

    /// The number of entry slots the current block provides.
    pub fn capacity(&self) -> (n: usize)
        ensures
            n == self.spec_capacity(),
    {
        self.capacity
    }

    /// Probe for `key`: walk forward from the key's home slot, wrapping, and
    /// stop at the first slot that is unoccupied or holds `key`. Every slot
    /// the probe walked through is occupied by some other key; if the stop
    /// is unoccupied, no occupied slot anywhere holds `key`.
    fn find_slot(&self, key: u64) -> (i: usize)
        requires
            self.wf(),
        ensures
            i < self.spec_capacity(),
            forall|s: int|
                0 <= s < self.spec_capacity() && probe_dist(
                    probe_home(key, self.spec_capacity() as int),
                    s,
                    self.spec_capacity() as int,
                ) < probe_dist(
                    probe_home(key, self.spec_capacity() as int),
                    i as int,
                    self.spec_capacity() as int,
                ) ==> slot_occupied(self.block@, s) && slot_key(self.block@, s) != key,
            slot_occupied(self.block@, i as int) ==> slot_key(self.block@, i as int) == key,
            !slot_occupied(self.block@, i as int) ==> (forall|s: int|
                0 <= s < self.spec_capacity() && slot_occupied(self.block@, s)
                    ==> slot_key(self.block@, s) != key),
            !slot_occupied(self.block@, i as int) ==> !contains_slot_in(
                self.block@,
                self.spec_capacity() as int,
                key,
            ),
    {
        let cap = self.capacity;
        let h = (key % (cap as u64)) as usize;
        let ghost hg = probe_home(key, cap as int);
        let mut d: usize = 0;
        while d < cap
            invariant
                self.wf(),
                cap == self.capacity,
                hg == probe_home(key, cap as int),
                h == hg,
                0 <= h < cap,
                d <= cap,
                forall|s: int|
                    0 <= s < cap && probe_dist(hg, s, cap as int) < d ==> slot_occupied(
                        self.block@,
                        s,
                    ) && slot_key(self.block@, s) != key,
            decreases cap - d,
        {
            let idx = if h + d < cap {
                h + d
            } else {
                h + d - cap
            };
            assert(probe_dist(hg, idx as int, cap as int) == d);
            let flag = self.block.load_word(3 * idx);
            if flag == 0 {
                proof {
                    assert forall|s: int|
                        0 <= s < cap && slot_occupied(self.block@, s) implies slot_key(
                        self.block@,
                        s,
                    ) != key by {
                        if slot_key(self.block@, s) == key {
                            let ds = probe_dist(hg, s, cap as int);
                            let di = probe_dist(hg, idx as int, cap as int);
                            if ds < di {
                                assert(slot_key(self.block@, s) != key);
                            } else if ds == di {
                                assert(s == idx as int);
                            } else {
                                assert(slot_occupied(self.block@, idx as int));
                            }
                        }
                    }
                }
                return idx;
            }
            let k = self.block.load_word(3 * idx + 1);
            if k == key {
                return idx;
            }
            d = d + 1;
        }
        proof {
            assert forall|s: int| 0 <= s < cap implies slot_occupied(self.block@, s) by {
                assert(probe_dist(hg, s, cap as int) < cap as int);
            }
            lemma_occupied_count_all(self.block@, cap as int);
            assert(false);
        }
        vstd::pervasive::unreached()
    }

    /// Rebuild the entry array at `new_capacity`: obtain a block of that
    /// entry count, clear its occupancy flags, re-insert every occupied
    /// entry in storage order by probing from scratch, then release the old
    /// block to the facade. The contents are unchanged; only the layout is.
    /// The probe-chain invariant of the old layout is not assumed, which is
    /// what lets a deletion repair its probe chains by rehashing.
    fn rehash(&mut self, alloc: &mut Allocator, new_capacity: usize)
        requires
            old(self).wf_base(),
            old(alloc).wf(),
            new_capacity >= INITIAL_TABLE_CAPACITY,
            24 * new_capacity <= usize::MAX,
            10 * old(self).count < 7 * new_capacity,
        ensures
            final(alloc).wf(),
            final(self).wf(),
            final(self)@ == old(self)@,
            final(self).count == old(self).count,
            final(self).capacity == new_capacity,
    {
        let fresh = alloc.allocate(TABLE_ENTRY_SIZE * new_capacity);
        let mut new_block = clear_flags(fresh, new_capacity);
        proof {
            lemma_occupied_count_none(new_block@, new_capacity as int);
        }
        let cap = self.capacity;
        let mut src: usize = 0;
        while src < cap
            invariant
                src <= cap,
                cap == self.capacity,
                *self == *old(self),
                self.block@.len() == 24 * cap,
                24 * cap <= usize::MAX,
                keys_distinct(self.block@, cap as int),
                occupied_count(self.block@, cap as int) == self.count,
                new_capacity >= INITIAL_TABLE_CAPACITY,
                24 * new_capacity <= usize::MAX,
                10 * self.count < 7 * new_capacity,
                new_block@.len() == 24 * new_capacity,
                keys_distinct(new_block@, new_capacity as int),
                chain_ok(new_block@, new_capacity as int),
                occupied_count(new_block@, new_capacity as int) == occupied_count(
                    self.block@,
                    src as int,
                ),
                forall|k: u64|
                    contains_slot_in(new_block@, new_capacity as int, k) <==> contains_slot_in(
                        self.block@,
                        src as int,
                        k,
                    ),
                forall|k: u64|
                    contains_slot_in(new_block@, new_capacity as int, k) ==> value_of(
                        new_block@,
                        new_capacity as int,
                        k,
                    ) == value_of(self.block@, cap as int, k),
            decreases cap - src,
        {
            let ghost capg = cap as int;
            let ghost ncapg = new_capacity as int;
            let flag = self.block.load_word(3 * src);
            if flag != 0 {
                let k = self.block.load_word(3 * src + 1);
                let v = self.block.load_word(3 * src + 2);
                proof {
                    assert(!contains_slot_in(new_block@, ncapg, k)) by {
                        if contains_slot_in(self.block@, src as int, k) {
                            let j = choose|j: int|
                                0 <= j < src as int && slot_occupied(self.block@, j) && slot_key(
                                    self.block@,
                                    j,
                                ) == k;
                            assert(slot_key(self.block@, j) != slot_key(self.block@, src as int));
                        }
                    }
                    lemma_occupied_count_monotonic(self.block@, src as int, capg);
                }
                let ghost nb0 = new_block@;
                probe_insert(&mut new_block, new_capacity, k, v);
                proof {
                    lemma_value_at_slot(self.block@, capg, src as int);
                    assert(table_map(new_block@, ncapg) == table_map(nb0, ncapg).insert(k, v));
                    assert forall|k2: u64|
                        contains_slot_in(new_block@, ncapg, k2) implies #[trigger] contains_slot_in(
                        self.block@,
                        src as int + 1,
                        k2,
                    ) by {
                        assert(table_map(new_block@, ncapg).contains_key(k2));
                        if k2 == k {
                            assert(slot_occupied(self.block@, src as int) && slot_key(
                                self.block@,
                                src as int,
                            ) == k2);
                        } else {
                            assert(contains_slot_in(nb0, ncapg, k2));
                            let j = choose|j: int|
                                0 <= j < src as int && slot_occupied(self.block@, j) && slot_key(
                                    self.block@,
                                    j,
                                ) == k2;
                            assert(0 <= j < src as int + 1);
                        }
                    }
                    assert forall|k2: u64|
                        #[trigger] contains_slot_in(self.block@, src as int + 1, k2)
                            implies contains_slot_in(new_block@, ncapg, k2) by {
                        let j = choose|j: int|
                            0 <= j < src as int + 1 && slot_occupied(self.block@, j) && slot_key(
                                self.block@,
                                j,
                            ) == k2;
                        if j == src as int {
                            assert(k2 == k);
                            assert(table_map(new_block@, ncapg).contains_key(k2));
                        } else {
                            assert(contains_slot_in(self.block@, src as int, k2));
                            assert(contains_slot_in(nb0, ncapg, k2));
                            assert(table_map(nb0, ncapg).contains_key(k2));
                            assert(table_map(new_block@, ncapg).contains_key(k2));
                        }
                    }
                    assert forall|k2: u64|
                        contains_slot_in(new_block@, ncapg, k2) implies value_of(
                        new_block@,
                        ncapg,
                        k2,
                    ) == value_of(self.block@, capg, k2) by {
                        if k2 == k {
                            let s = choose|s: int|
                                0 <= s < ncapg && slot_occupied(new_block@, s) && slot_key(
                                    new_block@,
                                    s,
                                ) == k2;
                            lemma_value_at_slot(new_block@, ncapg, s);
                            assert(table_map(new_block@, ncapg)[k2] == v);
                        } else {
                            assert(table_map(new_block@, ncapg).contains_key(k2));
                            assert(table_map(nb0, ncapg).contains_key(k2));
                            assert(contains_slot_in(nb0, ncapg, k2));
                            let s = choose|s: int|
                                0 <= s < ncapg && slot_occupied(nb0, s) && slot_key(nb0, s) == k2;
                            lemma_value_at_slot(nb0, ncapg, s);
                            let s2 = choose|s2: int|
                                0 <= s2 < ncapg && slot_occupied(new_block@, s2) && slot_key(
                                    new_block@,
                                    s2,
                                ) == k2;
                            lemma_value_at_slot(new_block@, ncapg, s2);
                            assert(table_map(new_block@, ncapg)[k2] == table_map(nb0, ncapg)[k2]);
                        }
                    }
                }
            } else {
                proof {
                    assert forall|k2: u64|
                        #[trigger] contains_slot_in(self.block@, src as int + 1, k2)
                            implies contains_slot_in(self.block@, src as int, k2) by {
                        let j = choose|j: int|
                            0 <= j < src as int + 1 && slot_occupied(self.block@, j) && slot_key(
                                self.block@,
                                j,
                            ) == k2;
                        assert(j != src as int);
                    }
                }
            }
            src = src + 1;
        }
        proof {
            assert forall|k2: u64|
                contains_slot_in(new_block@, new_capacity as int, k2) <==> contains_slot_in(
                    self.block@,
                    cap as int,
                    k2,
                ) by {}
        }
        core::mem::swap(&mut self.block, &mut new_block);
        alloc.deallocate(new_block);
        self.capacity = new_capacity;
        proof {
            assert(self@ =~= table_map(old(self).block@, old(self).capacity as int)) by {
                assert forall|k2: u64|
                    self@.contains_key(k2) implies self@[k2] == table_map(
                    old(self).block@,
                    old(self).capacity as int,
                )[k2] by {
                    let s = choose|s: int|
                        0 <= s < self.capacity as int && slot_occupied(self.block@, s) && slot_key(
                            self.block@,
                            s,
                        ) == k2;
                    lemma_value_at_slot(self.block@, self.capacity as int, s);
                    let s2 = choose|s2: int|
                        0 <= s2 < old(self).capacity as int && slot_occupied(old(self).block@, s2)
                            && slot_key(old(self).block@, s2) == k2;
                    lemma_value_at_slot(old(self).block@, old(self).capacity as int, s2);
                }
            }
        }
    }

    /// Bind `key` to `value`: overwrite the value in place when an entry
    /// already holds `key`, else insert a new entry on the key's probe path.
    /// When the insert would reach a load factor of 0.7 — when
    /// `10 * (count + 1) >= 7 * capacity` — the table first rehashes into
    /// twice the capacity, then probes in the new layout.
    pub fn set(&mut self, alloc: &mut Allocator, key: u64, value: u64)
        requires
            old(self).wf(),
            old(alloc).wf(),
            48 * old(self).spec_capacity() <= usize::MAX,
        ensures
            final(self).wf(),
            final(alloc).wf(),
            final(self)@ == old(self)@.insert(key, value),
            final(self).spec_capacity() == if 10 * (old(self).spec_count() + 1) >= 7 * old(
                self,
            ).spec_capacity() {
                2 * old(self).spec_capacity()
            } else {
                old(self).spec_capacity()
            },
            final(self).spec_count() == if old(self)@.contains_key(key) {
                old(self).spec_count()
            } else {
                old(self).spec_count() + 1
            },
    {
        if (self.count + 1) * 10 >= self.capacity * 7 {
            let target = 2 * self.capacity;
            self.rehash(alloc, target);
        }
        assert(10 * (self.count + 1) < 7 * self.capacity);
        assert(self@ == old(self)@);
        let ghost mid = *self;
        let i = self.find_slot(key);
        let ghost capg = self.capacity as int;
        let ghost ig = i as int;
        let flag = self.block.load_word(3 * i);
        if flag != 0 {
            let ghost b0 = self.block@;
            self.block.store_word(3 * i + 2, value);
            proof {
                lemma_slot_frame(b0, self.block@, capg, ig, 2);
                lemma_occupied_count_update(b0, self.block@, capg, ig);
                lemma_value_at_slot(b0, capg, ig);
                assert forall|p: int, q: int|
                    0 <= p < capg && 0 <= q < capg && p != q && slot_occupied(self.block@, p)
                        && slot_occupied(self.block@, q) implies slot_key(self.block@, p)
                    != slot_key(self.block@, q) by {
                    assert(slot_key(b0, p) != slot_key(b0, q));
                }
                assert forall|j: int, s: int|
                    #![trigger slot_occupied(self.block@, j), slot_occupied(self.block@, s)]
                    0 <= j < capg && 0 <= s < capg && slot_occupied(self.block@, j) && probe_dist(
                        probe_home(slot_key(self.block@, j), capg),
                        s,
                        capg,
                    ) < probe_dist(
                        probe_home(slot_key(self.block@, j), capg),
                        j,
                        capg,
                    ) implies slot_occupied(self.block@, s) by {
                    assert(slot_occupied(b0, j));
                    assert(slot_key(b0, j) == slot_key(self.block@, j));
                    assert(slot_occupied(b0, s));
                }
                assert forall|k2: u64|
                    contains_slot_in(self.block@, capg, k2) <==> contains_slot_in(
                        b0,
                        capg,
                        k2,
                    ) by {
                    if contains_slot_in(self.block@, capg, k2) {
                        let s = choose|s: int|
                            0 <= s < capg && slot_occupied(self.block@, s) && slot_key(
                                self.block@,
                                s,
                            ) == k2;
                        assert(slot_occupied(b0, s) && slot_key(b0, s) == k2);
                    }
                    if contains_slot_in(b0, capg, k2) {
                        let s = choose|s: int|
                            0 <= s < capg && slot_occupied(b0, s) && slot_key(b0, s) == k2;
                        assert(slot_occupied(self.block@, s) && slot_key(self.block@, s) == k2);
                    }
                }
                assert forall|k2: u64|
                    contains_slot_in(self.block@, capg, k2) implies value_of(
                    self.block@,
                    capg,
                    k2,
                ) == (if k2 == key {
                    value
                } else {
                    value_of(b0, capg, k2)
                }) by {
                    if k2 == key {
                        lemma_value_at_slot(self.block@, capg, ig);
                    } else {
                        let s = choose|s: int|
                            0 <= s < capg && slot_occupied(b0, s) && slot_key(b0, s) == k2;
                        assert(s != ig);
                        assert(slot_occupied(self.block@, s) && slot_key(self.block@, s) == k2);
                        lemma_value_at_slot(self.block@, capg, s);
                        lemma_value_at_slot(b0, capg, s);
                    }
                }
                assert(self@ =~= mid@.insert(key, value));
                assert(mid@.contains_key(key));
                assert(self@ =~= old(self)@.insert(key, value));
            }
        } else {
            proof {
                assert(!contains_slot_in(self.block@, capg, key));
                assert(occupied_count(self.block@, capg) < self.capacity);
            }
            probe_insert(&mut self.block, self.capacity, key, value);
            self.count = self.count + 1;
            proof {
                assert(!mid@.contains_key(key));
                assert(self@ == mid@.insert(key, value));
                assert(self@ =~= old(self)@.insert(key, value));
            }
        }
    }

    /// Remove `key` and its value, or report `KeyError` exactly when no
    /// entry holds `key`, leaving the table unchanged. A successful deletion
    /// clears the entry and then rehashes the whole table at its current
    /// capacity, so the probe chains of the keys that probed through the
    /// cleared slot are repaired and every remaining key stays reachable.
    pub fn delete(&mut self, alloc: &mut Allocator, key: u64) -> (r: Result<(), KeyError>)
        requires
            old(self).wf(),
            old(alloc).wf(),
        ensures
            final(self).wf(),
            final(alloc).wf(),
            final(self).spec_capacity() == old(self).spec_capacity(),
            old(self)@.contains_key(key) ==> r == Ok::<(), KeyError>(()) && final(self)@ == old(
                self,
            )@.remove(key) && final(self).spec_count() == old(self).spec_count() - 1,
            !old(self)@.contains_key(key) ==> r == Err::<(), KeyError>(KeyError) && final(self)@
                == old(self)@ && final(self).spec_count() == old(self).spec_count(),
    {
        let i = self.find_slot(key);
        let ghost capg = self.capacity as int;
        let ghost ig = i as int;
        let flag = self.block.load_word(3 * i);
        if flag == 0 {
            proof {
                assert(!self@.contains_key(key));
            }
            return Err(KeyError);
        }
        proof {
            lemma_value_at_slot(self.block@, capg, ig);
            lemma_occupied_count_monotonic(self.block@, ig + 1, capg);
            assert(occupied_count(self.block@, ig + 1) >= 1);
            assert(self.count >= 1);
        }
        let ghost b0 = self.block@;
        self.block.store_word(3 * i, 0);
        self.count = self.count - 1;
        proof {
            lemma_slot_frame(b0, self.block@, capg, ig, 0);
            lemma_occupied_count_update(b0, self.block@, capg, ig);
            assert(!slot_occupied(self.block@, ig));
            assert forall|p: int, q: int|
                0 <= p < capg && 0 <= q < capg && p != q && slot_occupied(self.block@, p)
                    && slot_occupied(self.block@, q) implies slot_key(self.block@, p) != slot_key(
                self.block@,
                q,
            ) by {
                assert(slot_occupied(b0, p) && slot_occupied(b0, q));
                assert(slot_key(b0, p) != slot_key(b0, q));
            }
            // clearing the one entry that held `key` removes exactly `key`
            assert forall|k2: u64|
                contains_slot_in(self.block@, capg, k2) <==> (k2 != key && contains_slot_in(
                    b0,
                    capg,
                    k2,
                )) by {
                if contains_slot_in(self.block@, capg, k2) {
                    let s = choose|s: int|
                        0 <= s < capg && slot_occupied(self.block@, s) && slot_key(self.block@, s)
                            == k2;
                    assert(s != ig);
                    assert(slot_occupied(b0, s) && slot_key(b0, s) == k2);
                    assert(k2 != key) by {
                        if k2 == key {
                            assert(slot_key(b0, s) != slot_key(b0, ig));
                        }
                    }
                }
                if k2 != key && contains_slot_in(b0, capg, k2) {
                    let s = choose|s: int|
                        0 <= s < capg && slot_occupied(b0, s) && slot_key(b0, s) == k2;
                    assert(s != ig);
                    assert(slot_occupied(self.block@, s) && slot_key(self.block@, s) == k2);
                }
            }
            assert forall|k2: u64|
                contains_slot_in(self.block@, capg, k2) implies value_of(self.block@, capg, k2)
                == value_of(b0, capg, k2) by {
                let s = choose|s: int|
                    0 <= s < capg && slot_occupied(self.block@, s) && slot_key(self.block@, s)
                        == k2;
                assert(s != ig);
                assert(slot_occupied(b0, s) && slot_key(b0, s) == k2);
                lemma_value_at_slot(self.block@, capg, s);
                lemma_value_at_slot(b0, capg, s);
            }
            assert(self@ =~= old(self)@.remove(key));
        }
        let cap = self.capacity;
        self.rehash(alloc, cap);
        Ok(())
    }

    /// A snapshot of all keys in storage order: exactly the keys the table
    /// holds, each once.
    pub fn keys(&self) -> (ks: Vec<u64>)
        requires
            self.wf(),
        ensures
            ks@.len() == self.spec_count(),
            ks@.no_duplicates(),
            forall|k: u64| #[trigger] ks@.contains(k) <==> self@.contains_key(k),
    {
        let ghost capg = self.capacity as int;
        let mut ks: Vec<u64> = Vec::new();
        let cap = self.capacity;
        let mut i: usize = 0;
        while i < cap
            invariant
                i <= cap,
                cap == self.capacity,
                self.wf(),
                ks@.len() == occupied_count(self.block@, i as int),
                ks@.no_duplicates(),
                forall|k: u64| #[trigger] ks@.contains(k) <==> contains_slot_in(
                    self.block@,
                    i as int,
                    k,
                ),
            decreases cap - i,
        {
            let flag = self.block.load_word(3 * i);
            if flag != 0 {
                let k = self.block.load_word(3 * i + 1);
                proof {
                    assert(!ks@.contains(k)) by {
                        if contains_slot_in(self.block@, i as int, k) {
                            let j = choose|j: int|
                                0 <= j < i as int && slot_occupied(self.block@, j) && slot_key(
                                    self.block@,
                                    j,
                                ) == k;
                            assert(slot_key(self.block@, j) != slot_key(self.block@, i as int));
                        }
                    }
                }
                let ghost ks0 = ks@;
                ks.push(k);
                proof {
                    assert forall|k2: u64| #[trigger] ks@.contains(k2) implies contains_slot_in(
                        self.block@,
                        i as int + 1,
                        k2,
                    ) by {
                        let j = choose|j: int| 0 <= j < ks@.len() && ks@[j] == k2;
                        if j < ks0.len() {
                            assert(ks0[j] == k2);
                            assert(ks0.contains(k2));
                            let s = choose|s: int|
                                0 <= s < i as int && slot_occupied(self.block@, s) && slot_key(
                                    self.block@,
                                    s,
                                ) == k2;
                            assert(0 <= s < i as int + 1);
                        } else {
                            assert(k2 == k);
                            assert(slot_occupied(self.block@, i as int));
                        }
                    }
                    assert forall|k2: u64|
                        contains_slot_in(self.block@, i as int + 1, k2) implies ks@.contains(
                        k2,
                    ) by {
                        let s = choose|s: int|
                            0 <= s < i as int + 1 && slot_occupied(self.block@, s) && slot_key(
                                self.block@,
                                s,
                            ) == k2;
                        if s < i as int {
                            assert(contains_slot_in(self.block@, i as int, k2));
                            assert(ks0.contains(k2));
                            let j = choose|j: int| 0 <= j < ks0.len() && ks0[j] == k2;
                            assert(ks@[j] == k2);
                        } else {
                            assert(k2 == k);
                            assert(ks@[ks@.len() - 1] == k);
                        }
                    }
                }
            } else {
                proof {
                    assert forall|k2: u64|
                        contains_slot_in(self.block@, i as int + 1, k2) implies contains_slot_in(
                        self.block@,
                        i as int,
                        k2,
                    ) by {
                        let s = choose|s: int|
                            0 <= s < i as int + 1 && slot_occupied(self.block@, s) && slot_key(
                                self.block@,
                                s,
                            ) == k2;
                        assert(s != i as int);
                    }
                }
            }
            i = i + 1;
        }
        ks
    }

    /// Give the table up, releasing its block — the one block of
    /// `24 * capacity` bytes the table owned — to the facade. Consuming the
    /// table makes a second release impossible.
    pub fn destroy(self, alloc: &mut Allocator)
        requires
            old(alloc).wf(),
            self.wf(),
        ensures
            final(alloc).wf(),
            exists|bytes: Seq<u8>|
                bytes.len() == 24 * self.spec_capacity() && crate::allocator::dealloc_post(
                    *old(alloc),
                    *final(alloc),
                    bytes,
                ),
    {
        let ghost released = self.block@;
        let ghost cap0 = self.spec_capacity();
        let Table { block, capacity: _, count: _ } = self;
        alloc.deallocate(block);
        proof {
            assert(released.len() == 24 * cap0 && crate::allocator::dealloc_post(
                *old(alloc),
                *alloc,
                released,
            ));
        }
    }

    /// The value beside `key`, or `KeyError` exactly when no entry holds
    /// `key`.
    pub fn get(&self, key: u64) -> (r: Result<u64, KeyError>)
        requires
            self.wf(),
        ensures
            match r {
                Ok(v) => self@.contains_key(key) && v == self@[key],
                Err(e) => !self@.contains_key(key) && e == KeyError,
            },
    {
        let i = self.find_slot(key);
        let flag = self.block.load_word(3 * i);
        if flag != 0 {
            proof {
                lemma_value_at_slot(self.block@, self.capacity as int, i as int);
            }
            Ok(self.block.load_word(3 * i + 2))
        } else {
            Err(KeyError)
        }
    }
}

/// Table round trip, over the map model that `set`, `get` and `delete` are
/// specified against: after binding `key` to `value`, looking `key` up
/// yields `value`, and every other key's binding is untouched; after then
/// removing `key`, looking it up fails, and every other key's binding is
/// still untouched.
pub proof fn lemma_table_round_trip(m: Map<u64, u64>, key: u64, value: u64)
    ensures
        m.insert(key, value).contains_key(key),
        m.insert(key, value)[key] == value,
        !m.insert(key, value).remove(key).contains_key(key),
        forall|k: u64|
            k != key ==> #[trigger] m.insert(key, value).contains_key(k) == m.contains_key(k)
                && (m.contains_key(k) ==> m.insert(key, value)[k] == m[k]),
        forall|k: u64|
            k != key ==> #[trigger] m.insert(key, value).remove(key).contains_key(k)
                == m.contains_key(k) && (m.contains_key(k) ==> m.insert(key, value).remove(key)[k]
                == m[k]),
{
}

/// Load-factor invariant: every table the operations hand back keeps
/// `count / capacity` strictly below the 0.7 rehash trigger, so after any
/// sequence of `set` calls `10 * count < 7 * capacity` holds.
pub proof fn lemma_load_factor(t: &Table)
    requires
        t.wf(),
    ensures
        10 * t.spec_count() < 7 * t.spec_capacity(),
        t.spec_count() < t.spec_capacity(),
{
}

/// Insert a key that is not yet present into the first unoccupied slot on
/// its probe path, as rehashing does for every entry it moves.
fn probe_insert(block: &mut MemoryBlock, cap: usize, key: u64, value: u64)
    requires
        old(block)@.len() == 24 * cap,
        24 * cap <= usize::MAX,
        cap >= 1,
        keys_distinct(old(block)@, cap as int),
        chain_ok(old(block)@, cap as int),
        !contains_slot_in(old(block)@, cap as int, key),
        occupied_count(old(block)@, cap as int) < cap,
    ensures
        final(block)@.len() == old(block)@.len(),
        keys_distinct(final(block)@, cap as int),
        chain_ok(final(block)@, cap as int),
        occupied_count(final(block)@, cap as int) == occupied_count(old(block)@, cap as int) + 1,
        table_map(final(block)@, cap as int) == table_map(old(block)@, cap as int).insert(
            key,
            value,
        ),
{
    let h = (key % (cap as u64)) as usize;
    let ghost hg = probe_home(key, cap as int);
    let mut d: usize = 0;
    while d < cap
        invariant
            block@ == old(block)@,
            block@.len() == 24 * cap,
            24 * cap <= usize::MAX,
            cap >= 1,
            keys_distinct(block@, cap as int),
            chain_ok(block@, cap as int),
            !contains_slot_in(block@, cap as int, key),
            occupied_count(block@, cap as int) < cap,
            hg == probe_home(key, cap as int),
            h == hg,
            0 <= h < cap,
            d <= cap,
            forall|s: int|
                0 <= s < cap && probe_dist(hg, s, cap as int) < d ==> slot_occupied(block@, s),
        decreases cap - d,
    {
        let idx = if h + d < cap {
            h + d
        } else {
            h + d - cap
        };
        assert(probe_dist(hg, idx as int, cap as int) == d);
        let flag = block.load_word(3 * idx);
        if flag == 0 {
            let ghost b0 = block@;
            block.store_word(3 * idx + 1, key);
            let ghost b1 = block@;
            block.store_word(3 * idx + 2, value);
            let ghost b2 = block@;
            block.store_word(3 * idx, 1);
            proof {
                let capg = cap as int;
                let ig = idx as int;
                lemma_slot_frame(b0, b1, capg, ig, 1);
                lemma_slot_frame(b1, b2, capg, ig, 2);
                lemma_slot_frame(b2, block@, capg, ig, 0);
                assert(slot_occupied(block@, ig));
                assert(slot_key(block@, ig) == key);
                assert(slot_value(block@, ig) == value);
                assert forall|s: int| 0 <= s < capg && s != ig implies slot_occupied(block@, s)
                    == slot_occupied(b0, s) && slot_key(block@, s) == slot_key(b0, s)
                    && slot_value(block@, s) == slot_value(b0, s) by {}
                lemma_occupied_count_update(b0, block@, capg, ig);
                // keys stay distinct: no other occupied slot held `key`
                assert forall|p: int, q: int|
                    0 <= p < capg && 0 <= q < capg && p != q && slot_occupied(block@, p)
                        && slot_occupied(block@, q) implies slot_key(block@, p) != slot_key(
                    block@,
                    q,
                ) by {
                    if p == ig {
                        assert(slot_occupied(b0, q) && slot_key(b0, q) != key);
                    } else if q == ig {
                        assert(slot_occupied(b0, p) && slot_key(b0, p) != key);
                    } else {
                        assert(slot_key(b0, p) != slot_key(b0, q));
                    }
                }
                // the probe chains stay intact
                assert forall|j: int, s: int|
                    #![trigger slot_occupied(block@, j), slot_occupied(block@, s)]
                    0 <= j < capg && 0 <= s < capg && slot_occupied(block@, j) && probe_dist(
                        probe_home(slot_key(block@, j), capg),
                        s,
                        capg,
                    ) < probe_dist(
                        probe_home(slot_key(block@, j), capg),
                        j,
                        capg,
                    ) implies slot_occupied(block@, s) by {
                    if j == ig {
                        assert(slot_occupied(b0, s));
                    } else if s != ig {
                        assert(slot_occupied(b0, j));
                        assert(slot_occupied(b0, s));
                    }
                }
                // the new contents are the old map plus the new pair
                assert forall|k: u64|
                    k != key && contains_slot_in(block@, capg, k) implies contains_slot_in(
                    b0,
                    capg,
                    k,
                ) by {
                    let s = choose|s: int|
                        0 <= s < capg && slot_occupied(block@, s) && slot_key(block@, s) == k;
                    assert(s != ig);
                    assert(slot_occupied(b0, s) && slot_key(b0, s) == k);
                }
                assert forall|k: u64| contains_slot_in(b0, capg, k) implies contains_slot_in(
                    block@,
                    capg,
                    k,
                ) by {
                    let s = choose|s: int|
                        0 <= s < capg && slot_occupied(b0, s) && slot_key(b0, s) == k;
                    assert(s != ig);
                    assert(slot_occupied(block@, s) && slot_key(block@, s) == k);
                }
                assert forall|k: u64| contains_slot_in(block@, capg, k) implies value_of(
                    block@,
                    capg,
                    k,
                ) == (if k == key {
                    value
                } else {
                    value_of(b0, capg, k)
                }) by {
                    if k == key {
                        lemma_value_at_slot(block@, capg, ig);
                    } else {
                        let s = choose|s: int|
                            0 <= s < capg && slot_occupied(b0, s) && slot_key(b0, s) == k;
                        assert(slot_occupied(block@, s) && slot_key(block@, s) == k);
                        lemma_value_at_slot(block@, capg, s);
                        lemma_value_at_slot(b0, capg, s);
                    }
                }
                assert(table_map(block@, capg) =~= table_map(b0, capg).insert(key, value));
            }
            return ;
        }
        d = d + 1;
    }
    proof {
        assert forall|s: int| 0 <= s < cap implies slot_occupied(block@, s) by {
            assert(probe_dist(hg, s, cap as int) < cap as int);
        }
        lemma_occupied_count_all(block@, cap as int);
        assert(false);
    }
}

/// Zero the occupancy flag word of the first `cap` entries of a block.
fn clear_flags(block: MemoryBlock, cap: usize) -> (out: MemoryBlock)
    requires
        block@.len() == 24 * cap,
    ensures
        out@.len() == block@.len(),
        forall|i: int| 0 <= i < cap ==> !slot_occupied(out@, i),
{
    let mut b = block;
    let n = b.size();
    assert(n == 24 * cap && 24 * cap <= usize::MAX);
    let mut i: usize = 0;
    while i < cap
        invariant
            i <= cap,
            24 * cap <= usize::MAX,
            b@.len() == 24 * cap,
            forall|j: int| 0 <= j < i ==> !slot_occupied(b@, j),
        decreases cap - i,
    {
        let ghost prev = b@;
        b.store_word(3 * i, 0);
        proof {
            lemma_slot_frame(prev, b@, cap as int, i as int, 0);
        }
        i = i + 1;
    }
    b
}

} // verus!
