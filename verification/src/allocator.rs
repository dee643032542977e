//! Allocation store and allocator: the table mapping allocation keys to
//! reserved port blocks, its parsing and serialization, stale-entry
//! pruning, and the allocate/deallocate operations.
//!
//! The table is the single source of truth for which ports are in use.
//! Reading and writing the backing file is the caller's business; the
//! library works on the file's text and on tables held in memory. The
//! load-modify-save cycle around these operations takes no lock and no
//! atomic replace: two processes racing on the file can lose one write.
//! That is accepted for the intended usage of one operator running one
//! command at a time, and is a caller-side concern in any case.

use vstd::prelude::*;

use crate::checker::find_consecutive_free;
use crate::checker::is_window;
use crate::checker::some_window_free;
use crate::checker::window_free;
use crate::strings::str_eq;

verus! {

broadcast use vstd::std_specs::hash::group_hash_axioms;

/// One claim in the table: a key and the ports reserved under it.
#[derive(Debug, Clone)]
pub struct AllocationEntry {
    pub key: String,
    pub ports: Vec<u16>,
}

/// The port allocation table, persisted as a single shared file whose
/// text is a flat JSON object from key to port array.
#[derive(Debug, Clone)]
pub struct PortAllocations {
    pub allocations: Vec<AllocationEntry>,
}

/// No two entries claim the same key.
pub open spec fn entry_keys_unique(entries: Seq<AllocationEntry>) -> bool {
    forall|i: int, j: int|
        0 <= i < j < entries.len() ==> (#[trigger] entries[i]).key@ != (#[trigger] entries[j]).key@
}

/// The mapping an entry list denotes; a later entry for a key would win,
/// though a well-formed table holds each key once.
pub open spec fn table_of(entries: Seq<AllocationEntry>) -> Map<Seq<char>, Seq<u16>>
    decreases entries.len(),
{
    if entries.len() == 0 {
        Map::empty()
    } else {
        table_of(entries.drop_last()).insert(entries.last().key@, entries.last().ports@)
    }
}

impl View for PortAllocations {
    type V = Map<Seq<char>, Seq<u16>>;

    open spec fn view(&self) -> Map<Seq<char>, Seq<u16>> {
        table_of(self.allocations@)
    }
}

impl PortAllocations {
    /// Each key appears in at most one entry.
    pub open spec fn wf(self) -> bool {
        entry_keys_unique(self.allocations@)
    }

    /// The empty table, as `load` yields it when no allocation file exists.
    pub fn new() -> (r: Self)
        ensures
            r@ == Map::<Seq<char>, Seq<u16>>::empty(),
            r.wf(),
            ports_disjoint(r@),
    {
        PortAllocations { allocations: Vec::new() }
    }
}

proof fn lemma_table_contains(entries: Seq<AllocationEntry>, k: Seq<char>)
    ensures
        table_of(entries).contains_key(k) <==> exists|i: int|
            0 <= i < entries.len() && (#[trigger] entries[i]).key@ == k,
    decreases entries.len(),
{
    if entries.len() > 0 {
        lemma_table_contains(entries.drop_last(), k);
        if entries.last().key@ == k {
            assert(entries[entries.len() - 1].key@ == k);
        } else if table_of(entries.drop_last()).contains_key(k) {
            let i = choose|i: int|
                0 <= i < entries.drop_last().len() && (#[trigger] entries.drop_last()[i]).key@ == k;
            assert(entries[i].key@ == k);
        } else if exists|i: int| 0 <= i < entries.len() && (#[trigger] entries[i]).key@ == k {
            let i = choose|i: int| 0 <= i < entries.len() && (#[trigger] entries[i]).key@ == k;
            assert(i < entries.len() - 1);
            assert(entries.drop_last()[i].key@ == k);
        }
    }
}

proof fn lemma_table_at(entries: Seq<AllocationEntry>, i: int)
    requires
        entry_keys_unique(entries),
        0 <= i < entries.len(),
    ensures
        table_of(entries).contains_key(entries[i].key@),
        table_of(entries)[entries[i].key@] == entries[i].ports@,
    decreases entries.len(),
{
    if i == entries.len() - 1 {
    } else {
        assert(entry_keys_unique(entries.drop_last())) by {
            assert forall|a: int, b: int| 0 <= a < b < entries.drop_last().len() implies (
            #[trigger] entries.drop_last()[a]).key@ != (#[trigger] entries.drop_last()[b]).key@ by {
                assert(entries[a].key@ != entries[b].key@);
            }
        }
        assert(entries.drop_last()[i] == entries[i]);
        lemma_table_at(entries.drop_last(), i);
        assert(entries[i].key@ != entries.last().key@);
    }
}

/// `table_of` of a grown list is the old mapping plus the new claim.
proof fn lemma_table_push(entries: Seq<AllocationEntry>, e: AllocationEntry)
    ensures
        table_of(entries.push(e)) == table_of(entries).insert(e.key@, e.ports@),
{
    assert(entries.push(e).drop_last() =~= entries);
    assert(entries.push(e).last() == e);
}

impl PortAllocations {
    /// Index of the entry that claims `key`, if one does.
    fn index_of(&self, key: &str) -> (r: Option<usize>)
        ensures
            match r {
                Some(i) => i < self.allocations@.len() && self.allocations@[i as int].key@ == key@,
                None => forall|i: int|
                    0 <= i < self.allocations@.len() ==> (#[trigger] self.allocations@[i]).key@
                        != key@,
            },
    {
        let mut i: usize = 0;
        while i < self.allocations.len()
            invariant
                i <= self.allocations@.len(),
                forall|j: int| 0 <= j < i ==> (#[trigger] self.allocations@[j]).key@ != key@,
            decreases self.allocations@.len() - i,
        {
            if str_eq(self.allocations[i].key.as_str(), key) {
                return Some(i);
            }
            i = i + 1;
        }
        None
    }

    /// The ports reserved under `key`, when the table holds the key.
    pub fn get_ports(&self, key: &str) -> (r: Option<&Vec<u16>>)
        requires
            self.wf(),
        ensures
            match r {
                Some(v) => self@.contains_key(key@) && v@ == self@[key@],
                None => !self@.contains_key(key@),
            },
    {
        match self.index_of(key) {
            Some(i) => {
                proof {
                    lemma_table_at(self.allocations@, i as int);
                }
                Some(&self.allocations[i].ports)
            },
            None => {
                proof {
                    lemma_table_contains(self.allocations@, key@);
                }
                None
            },
        }
    }
}

/// Some key of the table holds port `p`.
pub open spec fn port_in_table(m: Map<Seq<char>, Seq<u16>>, p: u16) -> bool {
    exists|k: Seq<char>| m.contains_key(k) && (#[trigger] m[k]).contains(p)
}

/// Every port any key of the table holds.
pub open spec fn ports_set(m: Map<Seq<char>, Seq<u16>>) -> Set<u16> {
    Set::new(|p: u16| port_in_table(m, p))
}

/// No two distinct keys share a port: the core invariant of the table.
pub open spec fn ports_disjoint(m: Map<Seq<char>, Seq<u16>>) -> bool {
    forall|k1: Seq<char>, k2: Seq<char>, p: u16|
        m.contains_key(k1) && m.contains_key(k2) && k1 != k2 ==> !(#[trigger] m[k1].contains(p)
            && #[trigger] m[k2].contains(p))
}

/// Port `p` appears in one of the first `n` entries.
spec fn port_in_prefix(entries: Seq<AllocationEntry>, n: int, p: u16) -> bool {
    exists|i: int| 0 <= i < n && (#[trigger] entries[i]).ports@.contains(p)
}

proof fn lemma_port_in_table(entries: Seq<AllocationEntry>, p: u16)
    requires
        entry_keys_unique(entries),
    ensures
        port_in_table(table_of(entries), p) <==> port_in_prefix(entries, entries.len() as int, p),
{
    if port_in_table(table_of(entries), p) {
        let k = choose|k: Seq<char>|
            table_of(entries).contains_key(k) && (#[trigger] table_of(entries)[k]).contains(p);
        lemma_table_contains(entries, k);
        let i = choose|i: int| 0 <= i < entries.len() && (#[trigger] entries[i]).key@ == k;
        lemma_table_at(entries, i);
        assert(entries[i].ports@.contains(p));
    }
    if port_in_prefix(entries, entries.len() as int, p) {
        let i = choose|i: int|
            0 <= i < entries.len() && (#[trigger] entries[i]).ports@.contains(p);
        lemma_table_at(entries, i);
        assert(table_of(entries)[entries[i].key@].contains(p));
    }
}

impl PortAllocations {
    /// Every currently allocated port, as the exclusion set the scanner
    /// takes.
    pub fn all_allocated_ports(&self) -> (r: std::collections::HashSet<u16>)
        requires
            self.wf(),
        ensures
            r@ == ports_set(self@),
    {
        let mut r: std::collections::HashSet<u16> = std::collections::HashSet::new();
        let ghost entries = self.allocations@;
        let mut i: usize = 0;
        while i < self.allocations.len()
            invariant
                entries == self.allocations@,
                i <= entries.len(),
                forall|p: u16| #[trigger] r@.contains(p) <==> port_in_prefix(entries, i as int, p),
            decreases entries.len() - i,
        {
            let row = &self.allocations[i];
            let mut j: usize = 0;
            while j < row.ports.len()
                invariant
                    entries == self.allocations@,
                    i < entries.len(),
                    row == entries[i as int],
                    j <= row.ports@.len(),
                    forall|p: u16| #[trigger]
                        r@.contains(p) <==> (port_in_prefix(entries, i as int, p) || exists|j2: int|
                            0 <= j2 < j && row.ports@[j2] == p),
                decreases row.ports@.len() - j,
            {
                let p = row.ports[j];
                r.insert(p);
                proof {
                    assert(row.ports@[j as int] == p);
                }
                j = j + 1;
            }
            proof {
                assert forall|p: u16| #[trigger] r@.contains(p) implies port_in_prefix(
                    entries,
                    i as int + 1,
                    p,
                ) by {
                    if port_in_prefix(entries, i as int, p) {
                        let i2 = choose|i2: int|
                            0 <= i2 < i && (#[trigger] entries[i2]).ports@.contains(p);
                        assert(entries[i2].ports@.contains(p));
                    } else {
                        assert(entries[i as int].ports@.contains(p));
                    }
                }
                assert forall|p: u16| port_in_prefix(entries, i as int + 1, p) implies r@.contains(
                    p,
                ) by {
                    let i2 = choose|i2: int|
                        0 <= i2 < i + 1 && (#[trigger] entries[i2]).ports@.contains(p);
                    if i2 < i {
                        assert(port_in_prefix(entries, i as int, p));
                    } else {
                        let j2 = choose|j2: int|
                            0 <= j2 < entries[i2].ports@.len() && entries[i2].ports@[j2] == p;
                        assert(row.ports@[j2] == p);
                    }
                }
            }
            i = i + 1;
        }
        proof {
            assert forall|p: u16| true implies (#[trigger] r@.contains(p) == ports_set(
                self@,
            ).contains(p)) by {
                lemma_port_in_table(entries, p);
            }
            assert(r@ =~= ports_set(self@));
        }
        r
    }
}

/// The error taxonomy of the store and allocator.
#[derive(Debug, Clone, Copy, PartialEq, Eq, Structural)]
pub enum AllocationError {
    /// No contiguous free block of the requested size fits the range.
    RangeExhausted,
    /// The allocation file exists but does not parse as a table of
    /// non-empty, contiguous port lists.
    CorruptState,
    /// Writing the allocation file failed; raised by the caller that owns
    /// the file, never by the in-memory operations.
    PersistenceFailed,
}

/// What an allocation call yields: the ports, and whether they were
/// already reserved under the key.
#[derive(Debug, Clone)]
pub struct AllocationResult {
    pub ports: Vec<u16>,
    pub existing: bool,
}

/// The set of key views a list of keys holds.
pub open spec fn key_set(keys: Seq<String>) -> Set<Seq<char>> {
    Set::new(|k: Seq<char>| exists|i: int| 0 <= i < keys.len() && (#[trigger] keys[i])@ == k)
}

/// Whether `k` is one of `keys`.
fn keys_contain(keys: &Vec<String>, k: &str) -> (r: bool)
    ensures
        r == key_set(keys@).contains(k@),
{
    let mut i: usize = 0;
    while i < keys.len()
        invariant
            i <= keys@.len(),
            forall|j: int| 0 <= j < i ==> (#[trigger] keys@[j])@ != k@,
        decreases keys@.len() - i,
    {
        if str_eq(keys[i].as_str(), k) {
            proof {
                assert((keys@[i as int])@ == k@);
            }
            return true;
        }
        i = i + 1;
    }
    proof {
        if key_set(keys@).contains(k@) {
            let j = choose|j: int| 0 <= j < keys@.len() && (#[trigger] keys@[j])@ == k@;
        }
    }
    false
}

proof fn lemma_table_remove(entries: Seq<AllocationEntry>, i: int)
    requires
        entry_keys_unique(entries),
        0 <= i < entries.len(),
    ensures
        table_of(entries.remove(i)) == table_of(entries).remove(entries[i].key@),
        entry_keys_unique(entries.remove(i)),
    decreases entries.len(),
{
    assert(entry_keys_unique(entries.drop_last())) by {
        assert forall|a: int, b: int| 0 <= a < b < entries.drop_last().len() implies (
        #[trigger] entries.drop_last()[a]).key@ != (#[trigger] entries.drop_last()[b]).key@ by {
            assert(entries[a].key@ != entries[b].key@);
        }
    }
    assert forall|a: int, b: int| 0 <= a < b < entries.remove(i).len() implies (
    #[trigger] entries.remove(i)[a]).key@ != (#[trigger] entries.remove(i)[b]).key@ by {
        let a2 = if a < i { a } else { a + 1 };
        let b2 = if b < i { b } else { b + 1 };
        assert(entries.remove(i)[a] == entries[a2]);
        assert(entries.remove(i)[b] == entries[b2]);
        assert(entries[a2].key@ != entries[b2].key@);
    }
    if i == entries.len() - 1 {
        assert(entries.remove(i) =~= entries.drop_last());
        lemma_table_contains(entries.drop_last(), entries[i].key@);
        assert forall|a: int| 0 <= a < entries.drop_last().len() implies (
        #[trigger] entries.drop_last()[a]).key@ != entries[i].key@ by {
            assert(entries[a].key@ != entries[i].key@);
        }
        assert(!table_of(entries.drop_last()).contains_key(entries[i].key@));
        assert(table_of(entries.drop_last()).insert(entries[i].key@, entries[i].ports@).remove(
            entries[i].key@,
        ) =~= table_of(entries.drop_last()));
    } else {
        let k = entries[i].key@;
        lemma_table_remove(entries.drop_last(), i);
        assert(entries.remove(i).drop_last() =~= entries.drop_last().remove(i));
        assert(entries.remove(i).last() == entries.last());
        assert(entries.drop_last()[i] == entries[i]);
        assert(table_of(entries.remove(i)) == table_of(entries.drop_last()).remove(k).insert(
            entries.last().key@,
            entries.last().ports@,
        ));
        assert(entries.last().key@ != k);
        assert(table_of(entries.drop_last()).remove(k).insert(
            entries.last().key@,
            entries.last().ports@,
        ) =~= table_of(entries.drop_last()).insert(
            entries.last().key@,
            entries.last().ports@,
        ).remove(k));
    }
}

impl PortAllocations {
    /// Drop every entry whose key is not among `live_keys`, the keys for
    /// which the caller found a worktree marker on disk; the dropped keys
    /// come back so the caller can report them. Ports the dropped keys
    /// held are free again, and the keys a table shares with `live_keys`
    /// survive untouched.
    pub fn cleanup_stale(&mut self, live_keys: &Vec<String>) -> (stale: Vec<String>)
        requires
            old(self).wf(),
        ensures
            final(self).wf(),
            final(self)@ == old(self)@.restrict(key_set(live_keys@)),
            ports_disjoint(old(self)@) ==> ports_disjoint(final(self)@),
            forall|j: int|
                0 <= j < stale@.len() ==> old(self)@.contains_key((#[trigger] stale@[j])@)
                    && !key_set(live_keys@).contains(stale@[j]@),
            forall|k: Seq<char>|
                old(self)@.contains_key(k) && !key_set(live_keys@).contains(k) ==> exists|j: int|
                    0 <= j < stale@.len() && (#[trigger] stale@[j])@ == k,
    {
        let ghost entries = self.allocations@;
        let ghost live = key_set(live_keys@);
        let mut kept: Vec<AllocationEntry> = Vec::new();
        let mut stale: Vec<String> = Vec::new();
        let mut i: usize = 0;
        while i < self.allocations.len()
            invariant
                old(self).wf(),
                entries == self.allocations@,
                live == key_set(live_keys@),
                i <= entries.len(),
                entry_keys_unique(kept@),
                forall|j: int|
                    0 <= j < kept@.len() ==> exists|i2: int|
                        0 <= i2 < i && (#[trigger] kept@[j]).key@ == entries[i2].key@,
                table_of(kept@) == table_of(entries.subrange(0, i as int)).restrict(live),
                forall|j: int|
                    0 <= j < stale@.len() ==> table_of(entries).contains_key(
                        (#[trigger] stale@[j])@,
                    ) && !live.contains(stale@[j]@),
                forall|i2: int|
                    0 <= i2 < i && !live.contains((#[trigger] entries[i2]).key@) ==> exists|j: int|
                        0 <= j < stale@.len() && (#[trigger] stale@[j])@ == entries[i2].key@,
            decreases entries.len() - i,
        {
            let e = &self.allocations[i];
            let ghost pre = entries.subrange(0, i as int);
            proof {
                assert(entries.subrange(0, i as int + 1).drop_last() =~= pre);
                assert(entries.subrange(0, i as int + 1) =~= pre.push(entries[i as int]));
                lemma_table_push(pre, entries[i as int]);
            }
            if keys_contain(live_keys, e.key.as_str()) {
                let kept_entry = AllocationEntry {
                    key: e.key.clone(),
                    ports: vstd::slice::slice_to_vec(e.ports.as_slice()),
                };
                proof {
                    assert(kept_entry.key@ == entries[i as int].key@);
                    assert(kept_entry.ports@ == entries[i as int].ports@);
                    lemma_table_push(kept@, kept_entry);
                    assert forall|j: int| 0 <= j < kept@.len() implies (#[trigger] kept@[j]).key@
                        != kept_entry.key@ by {
                        let i2 = choose|i2: int|
                            0 <= i2 < i && (#[trigger] kept@[j]).key@ == entries[i2].key@;
                        assert(entries[i2].key@ != entries[i as int].key@);
                    }
                    assert(table_of(kept@.push(kept_entry)) =~= table_of(
                        entries.subrange(0, i as int + 1),
                    ).restrict(live));
                }
                kept.push(kept_entry);
            } else {
                proof {
                    lemma_table_at(entries, i as int);
                    assert(table_of(entries.subrange(0, i as int + 1)).restrict(live) =~= table_of(
                        pre,
                    ).restrict(live));
                }
                let ghost old_stale = stale@;
                stale.push(e.key.clone());
                proof {
                    assert(stale@[old_stale.len() as int]@ == entries[i as int].key@);
                    assert forall|j: int| 0 <= j < stale@.len() implies table_of(
                        entries,
                    ).contains_key((#[trigger] stale@[j])@) && !live.contains(stale@[j]@) by {
                        if j < old_stale.len() {
                            assert(stale@[j] == old_stale[j]);
                        } else {
                            assert(stale@[j]@ == entries[i as int].key@);
                        }
                    }
                    assert forall|i2: int|
                        0 <= i2 < i + 1 && !live.contains((#[trigger] entries[i2]).key@) implies
                        exists|j: int|
                            0 <= j < stale@.len() && (#[trigger] stale@[j])@ == entries[i2].key@ by {
                        if i2 < i {
                            let j = choose|j: int|
                                0 <= j < old_stale.len() && (#[trigger] old_stale[j])@
                                    == entries[i2].key@;
                            assert(stale@[j] == old_stale[j]);
                            assert((stale@[j])@ == entries[i2].key@);
                        } else {
                            assert((stale@[old_stale.len() as int])@ == entries[i2].key@);
                        }
                    }
                }
            }
            i = i + 1;
        }
        proof {
            assert(entries.subrange(0, entries.len() as int) =~= entries);
            assert forall|k: Seq<char>|
                old(self)@.contains_key(k) && !key_set(live_keys@).contains(k) implies exists|j: int|
                0 <= j < stale@.len() && (#[trigger] stale@[j])@ == k by {
                lemma_table_contains(entries, k);
                let i2 = choose|i2: int|
                    0 <= i2 < entries.len() && (#[trigger] entries[i2]).key@ == k;
                assert(!live.contains(entries[i2].key@));
            }
        }
        self.allocations = kept;
        proof {
            lemma_restrict_disjoint(old(self)@, live);
        }
        stale
    }

    /// Remove `key`'s claim, yielding its ports; an absent key yields
    /// `None` and leaves the table exactly as it was, so the caller has
    /// nothing to persist.
    pub fn remove_key(&mut self, key: &str) -> (r: Option<Vec<u16>>)
        requires
            old(self).wf(),
        ensures
            final(self).wf(),
            match r {
                Some(ports) => old(self)@.contains_key(key@) && ports@ == old(self)@[key@]
                    && final(self)@ == old(self)@.remove(key@),
                None => !old(self)@.contains_key(key@) && *final(self) == *old(self),
            },
    {
        match self.index_of(key) {
            Some(i) => {
                proof {
                    lemma_table_at(self.allocations@, i as int);
                    lemma_table_remove(self.allocations@, i as int);
                }
                let e = self.allocations.remove(i);
                Some(e.ports)
            },
            None => {
                proof {
                    lemma_table_contains(self.allocations@, key@);
                }
                None
            },
        }
    }
}

/// Remove `key` from the table; `Some` carries the freed ports and means
/// the table changed and wants persisting, `None` means the key was
/// absent, which is a valid path and must not rewrite the backing file.
pub fn deallocate(key: &str, table: &mut PortAllocations) -> (r: Option<Vec<u16>>)
    requires
        old(table).wf(),
    ensures
        final(table).wf(),
        match r {
            Some(ports) => old(table)@.contains_key(key@) && ports@ == old(table)@[key@]
                && final(table)@ == old(table)@.remove(key@),
            None => !old(table)@.contains_key(key@) && *final(table) == *old(table),
        },
        ports_disjoint(old(table)@) ==> ports_disjoint(final(table)@),
{
    let r = table.remove_key(key);
    proof {
        if ports_disjoint(old(table)@) {
            assert forall|k1: Seq<char>, k2: Seq<char>, p: u16|
                table@.contains_key(k1) && table@.contains_key(k2) && k1 != k2 implies !(
            #[trigger] table@[k1].contains(p) && #[trigger] table@[k2].contains(p)) by {
                assert(old(table)@[k1] == table@[k1]);
                assert(old(table)@[k2] == table@[k2]);
            }
        }
    }
    r
}

/// Reserve `count` consecutive ports in `[range_start, range_end]` under
/// `key`. Stale entries — keys without a worktree marker, per `live_keys`
/// — are pruned first. A key that survives pruning keeps its ports and is
/// reported with `existing` set, and then nothing wants persisting;
/// otherwise the lowest free window is claimed and the caller must save
/// the table. When no window fits, the range is exhausted; that is final
/// for these inputs, not retryable.
pub fn allocate(
    count: u16,
    key: &str,
    range_start: u16,
    range_end: u16,
    table: &mut PortAllocations,
    live_keys: &Vec<String>,
) -> (r: Result<AllocationResult, AllocationError>)
    requires
        old(table).wf(),
        count >= 1,
        range_start <= range_end,
    ensures
        final(table).wf(),
        ports_disjoint(old(table)@) ==> ports_disjoint(final(table)@),
        ({
            let pruned = old(table)@.restrict(key_set(live_keys@));
            match r {
                Ok(res) => {
                    &&& res.existing ==> pruned.contains_key(key@) && res.ports@ == pruned[key@]
                        && final(table)@ == pruned
                    &&& !res.existing ==> {
                        &&& !pruned.contains_key(key@)
                        &&& res.ports@.len() == count
                        &&& is_window(res.ports@, res.ports@[0] as int, count as int)
                        &&& range_start <= res.ports@[0]
                        &&& res.ports@[0] + count - 1 <= range_end
                        &&& window_free(ports_set(pruned), res.ports@[0] as int, count as int)
                        &&& forall|s: int|
                            range_start <= s < res.ports@[0] ==> !window_free(
                                ports_set(pruned),
                                s,
                                count as int,
                            )
                        &&& final(table)@ == pruned.insert(key@, res.ports@)
                    }
                },
                Err(e) => {
                    &&& e == AllocationError::RangeExhausted
                    &&& !pruned.contains_key(key@)
                    &&& !some_window_free(ports_set(pruned), range_start, range_end, count)
                    &&& final(table)@ == pruned
                },
            }
        }),
{
    let ghost pruned = old(table)@.restrict(key_set(live_keys@));
    let _stale = table.cleanup_stale(live_keys);
    if let Some(ports) = table.get_ports(key) {
        let owned = vstd::slice::slice_to_vec(ports.as_slice());
        proof {
            lemma_restrict_disjoint(old(table)@, key_set(live_keys@));
        }
        return Ok(AllocationResult { ports: owned, existing: true });
    }
    let excluded = table.all_allocated_ports();
    match find_consecutive_free(count, range_start, range_end, &excluded) {
        None => {
            proof {
                lemma_restrict_disjoint(old(table)@, key_set(live_keys@));
            }
            Err(AllocationError::RangeExhausted)
        },
        Some(ports) => {
            let entry = AllocationEntry {
                key: key.to_owned(),
                ports: vstd::slice::slice_to_vec(ports.as_slice()),
            };
            proof {
                lemma_table_contains(table.allocations@, key@);
                lemma_table_push(table.allocations@, entry);
                assert forall|a: int, b: int|
                    0 <= a < b < table.allocations@.push(entry).len() implies (
                #[trigger] table.allocations@.push(entry)[a]).key@ != (#[trigger] table.allocations@.push(
                    entry,
                )[b]).key@ by {
                    if b < table.allocations@.len() {
                        assert(table.allocations@[a].key@ != table.allocations@[b].key@);
                    } else {
                        assert(table.allocations@.push(entry)[b].key@ == key@);
                        assert(table.allocations@[a].key@ != key@);
                    }
                }
            }
            table.allocations.push(entry);
            proof {
                if ports_disjoint(old(table)@) {
                    lemma_restrict_disjoint(old(table)@, key_set(live_keys@));
                    assert forall|k1: Seq<char>, k2: Seq<char>, p: u16|
                        table@.contains_key(k1) && table@.contains_key(k2) && k1 != k2 implies !(
                    #[trigger] table@[k1].contains(p) && #[trigger] table@[k2].contains(p)) by {
                        if k1 != key@ && k2 != key@ {
                            assert(table@[k1] == pruned[k1]);
                            assert(table@[k2] == pruned[k2]);
                        } else {
                            let kn = if k1 == key@ {
                                k2
                            } else {
                                k1
                            };
                            assert(pruned.contains_key(kn) && table@[kn] == pruned[kn]);
                            if table@[key@].contains(p) && pruned[kn].contains(p) {
                                let idx = choose|idx: int|
                                    0 <= idx < ports@.len() && ports@[idx] == p;
                                assert(!excluded@.contains((ports@[0] + idx) as u16));
                                assert(port_in_table(pruned, p));
                                assert(ports_set(pruned).contains(p));
                            }
                        }
                    }
                }
            }
            Ok(AllocationResult { ports, existing: false })
        },
    }
}

/// Restricting a table cannot make two keys share a port.
proof fn lemma_restrict_disjoint(m: Map<Seq<char>, Seq<u16>>, live: Set<Seq<char>>)
    ensures
        ports_disjoint(m) ==> ports_disjoint(m.restrict(live)),
{
    if ports_disjoint(m) {
        assert forall|k1: Seq<char>, k2: Seq<char>, p: u16|
            m.restrict(live).contains_key(k1) && m.restrict(live).contains_key(k2) && k1 != k2
            implies !(#[trigger] m.restrict(live)[k1].contains(p) && #[trigger] m.restrict(
            live,
        )[k2].contains(p)) by {
            assert(m.restrict(live)[k1] == m[k1]);
            assert(m.restrict(live)[k2] == m[k2]);
        }
    }
}

/// The table that a text denotes when it parses as a JSON object from
/// string keys to arrays of 16-bit integers, and `None` when it does not;
/// a function of the text alone.
pub uninterp spec fn parsed_table(s: Seq<char>) -> Option<Map<Seq<char>, Seq<u16>>>;

/// The canonical pretty-printed text of a table; a function of the
/// key-to-ports mapping alone.
pub uninterp spec fn table_json(m: Map<Seq<char>, Seq<u16>>) -> Seq<char>;

/// Relies on serde_json::from_str with target BTreeMap<String, Vec<u16>>:
/// whether the text parses, and to which key-to-ports mapping, depends on
/// the text alone, and a BTreeMap holds each key at most once.
#[verifier::external_body]
fn parse_table_json(s: &str) -> (r: Option<Vec<AllocationEntry>>)
    ensures
        r is Some <==> parsed_table(s@) is Some,
        r matches Some(v) ==> entry_keys_unique(v@) && Some(table_of(v@)) == parsed_table(s@),
{
    match serde_json::from_str::<std::collections::BTreeMap<String, Vec<u16>>>(s) {
        Ok(m) => Some(
            m.into_iter().map(|(key, ports)| AllocationEntry { key, ports }).collect(),
        ),
        Err(_) => None,
    }
}

/// Relies on serde_json::to_string_pretty on a BTreeMap<String, Vec<u16>>:
/// the text depends on the key-to-ports mapping alone, since a BTreeMap
/// orders its keys; serializing a string-keyed map of integers does not
/// fail.
#[verifier::external_body]
fn table_to_json(entries: &Vec<AllocationEntry>) -> (r: String)
    ensures
        r@ == table_json(table_of(entries@)),
{
    let m: std::collections::BTreeMap<&str, &Vec<u16>> = entries
        .iter()
        .map(|e| (e.key.as_str(), &e.ports))
        .collect();
    serde_json::to_string_pretty(&m).unwrap_or_default()
}

/// A persisted port list is plausible only when it is non-empty and
/// contiguous ascending; anything else in the file is corrupt state.
pub open spec fn list_valid(ports: Seq<u16>) -> bool {
    ports.len() >= 1 && forall|i: int|
        0 <= i < ports.len() ==> (#[trigger] ports[i]) as int == ports[0] + i
}

/// Every port list in the table is non-empty and contiguous.
pub open spec fn table_lists_valid(m: Map<Seq<char>, Seq<u16>>) -> bool {
    forall|k: Seq<char>| #[trigger] m.contains_key(k) ==> list_valid(m[k])
}

fn list_is_valid(v: &Vec<u16>) -> (r: bool)
    ensures
        r == list_valid(v@),
{
    if v.len() == 0 {
        return false;
    }
    if v.len() > 65536 {
        proof {
            assert(v@[65535] as int != v@[0] + 65535 || v@[65536] as int != v@[0] + 65536);
        }
        return false;
    }
    let first = v[0];
    let mut i: usize = 1;
    while i < v.len()
        invariant
            1 <= i <= v@.len() <= 65536,
            first == v@[0],
            forall|j: int| 0 <= j < i ==> (#[trigger] v@[j]) as int == v@[0] + j,
        decreases v@.len() - i,
    {
        if !(v[i] as u32 == first as u32 + i as u32) {
            return false;
        }
        i = i + 1;
    }
    true
}

impl PortAllocations {
    /// Build the table from the allocation file's text; `None` stands for
    /// a file that does not exist, which is the empty table, not an error.
    /// Text that does not parse, or that carries an empty or
    /// non-contiguous port list, is corrupt state and is surfaced rather
    /// than discarded, else live reservations could be orphaned silently.
    pub fn load(content: Option<&str>) -> (r: Result<PortAllocations, AllocationError>)
        ensures
            match r {
                Ok(t) => {
                    &&& t.wf()
                    &&& table_lists_valid(t@)
                    &&& match content {
                        None => t@ == Map::<Seq<char>, Seq<u16>>::empty(),
                        Some(s) => Some(t@) == parsed_table(s@),
                    }
                },
                Err(e) => {
                    &&& e == AllocationError::CorruptState
                    &&& content matches Some(s) && (match parsed_table(s@) {
                        None => true,
                        Some(m) => !table_lists_valid(m),
                    })
                },
            },
    {
        let s = match content {
            None => {
                let t = PortAllocations::new();
                proof {
                    assert(table_lists_valid(t@));
                }
                return Ok(t);
            },
            Some(s) => s,
        };
        let entries = match parse_table_json(s) {
            None => {
                return Err(AllocationError::CorruptState);
            },
            Some(entries) => entries,
        };
        let mut i: usize = 0;
        while i < entries.len()
            invariant
                content matches Some(c) && c@ == s@,
                entry_keys_unique(entries@),
                Some(table_of(entries@)) == parsed_table(s@),
                i <= entries@.len(),
                forall|j: int| 0 <= j < i ==> list_valid((#[trigger] entries@[j]).ports@),
            decreases entries@.len() - i,
        {
            if !list_is_valid(&entries[i].ports) {
                proof {
                    lemma_table_at(entries@, i as int);
                    assert(table_of(entries@)[entries@[i as int].key@] == entries@[i as int].ports@);
                    assert(!table_lists_valid(table_of(entries@)));
                }
                return Err(AllocationError::CorruptState);
            }
            i = i + 1;
        }
        let t = PortAllocations { allocations: entries };
        proof {
            assert forall|k: Seq<char>| #[trigger] t@.contains_key(k) implies list_valid(
                t@[k],
            ) by {
                lemma_table_contains(entries@, k);
                let j = choose|j: int| 0 <= j < entries@.len() && (#[trigger] entries@[j]).key@ == k;
                lemma_table_at(entries@, j);
            }
        }
        Ok(t)
    }

    /// The pretty-printed text to persist: a whole-file overwrite is the
    /// caller's job, and the text is determined by the mapping alone.
    pub fn to_json(&self) -> (r: String)
        ensures
            r@ == table_json(self@),
    {
        table_to_json(&self.allocations)
    }
}

/// A key whose worktree is live survives pruning with its ports unchanged,
/// so a second `allocate` under the same key reports the same ports with
/// `existing` set and leaves the table as the pruning left it; and when
/// every key of the table is live, pruning changes nothing at all.
pub proof fn lemma_allocate_idempotent(
    m: Map<Seq<char>, Seq<u16>>,
    live: Set<Seq<char>>,
    key: Seq<char>,
)
    requires
        m.contains_key(key),
        live.contains(key),
    ensures
        m.restrict(live).contains_key(key),
        m.restrict(live)[key] == m[key],
        (forall|k: Seq<char>| #[trigger] m.contains_key(k) ==> live.contains(k)) ==> m.restrict(
            live,
        ) == m,
{
    if forall|k: Seq<char>| #[trigger] m.contains_key(k) ==> live.contains(k) {
        assert(m.restrict(live) =~= m);
    }
}

} // verus!
