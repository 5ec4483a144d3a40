//! One cache shard: a slab of entries threaded on three clock rings (hot, cold and
//! ghost), a hash index over the slab, and the CLOCK-PRO admission and eviction rules.
use vstd::prelude::*;
use vstd::std_specs::cmp::PartialEqSpec;

use crate::index::{index_contents, HashIndex, RESERVE_LIMIT};
use crate::ring::{lemma_push_fresh, lemma_remove_at, lemma_rotate};
use crate::Weighter;

verus! {

/// Clock state of a resident entry.
#[derive(Copy, Clone, Debug, PartialEq, Eq, Structural)]
pub enum ResidentState {
    Hot,
    ColdInTest,
    ColdDemoted,
}

/// A key, version and value that currently live in the cache. The entry's weight is
/// recorded when it is admitted and given back to the budget when it leaves.
#[derive(Debug)]
pub struct Resident<Key, Ver, Val> {
    key: Key,
    version: Ver,
    value: Val,
    state: ResidentState,
    referenced: bool,
    weight: u64,
}

/// Entries are either resident, `Ok(Resident)`, or ghosts, `Err(hash)`.
pub type Entry<Key, Ver, Val> = Result<Resident<Key, Ver, Val>, u64>;

/// A slab slot: vacant (`entry` is `None`) or holding an entry indexed under `hash`.
struct Slot<Key, Ver, Val> {
    entry: Option<Entry<Key, Ver, Val>>,
    hash: u64,
}

impl<Key, Ver, Val> Resident<Key, Ver, Val> {
    pub closed spec fn spec_key(&self) -> Key {
        self.key
    }

    pub closed spec fn spec_version(&self) -> Ver {
        self.version
    }

    pub closed spec fn spec_value(&self) -> Val {
        self.value
    }

    pub closed spec fn spec_state(&self) -> ResidentState {
        self.state
    }

    pub closed spec fn spec_referenced(&self) -> bool {
        self.referenced
    }

    pub closed spec fn spec_weight(&self) -> u64 {
        self.weight
    }

    pub fn key(&self) -> (r: &Key)
        ensures
            *r == self.spec_key(),
    {
        &self.key
    }

    pub fn version(&self) -> (r: &Ver)
        ensures
            *r == self.spec_version(),
    {
        &self.version
    }

    pub fn value(&self) -> (r: &Val)
        ensures
            *r == self.spec_value(),
    {
        &self.value
    }

    pub fn into_value(self) -> (r: Val)
        ensures
            r == self.spec_value(),
    {
        self.value
    }

    pub fn state(&self) -> (r: ResidentState)
        ensures
            r == self.spec_state(),
    {
        self.state
    }

    pub fn referenced(&self) -> (r: bool)
        ensures
            r == self.spec_referenced(),
    {
        self.referenced
    }
}

/// The resident, if any, with its reference bit set.
pub closed spec fn marked<Key, Ver, Val>(r: Option<Resident<Key, Ver, Val>>) -> Option<Resident<Key, Ver, Val>> {
    match r {
        Some(x) => Some(Resident { referenced: true, ..x }),
        None => None,
    }
}

/// Which of the two resident rings a state belongs to.
pub open spec fn is_hot_state(s: ResidentState) -> bool {
    s == ResidentState::Hot
}

/// What a slot adds to the weight of the hot (`hot`) or cold (`!hot`) ring.
spec fn share<Key, Ver, Val>(slot: Slot<Key, Ver, Val>, hot: bool) -> int {
    match slot.entry {
        Some(Ok(r)) => if is_hot_state(r.state) == hot { r.weight as int } else { 0 },
        _ => 0,
    }
}

/// Total weight of the residents of one ring over a prefix of the slab.
spec fn class_weight<Key, Ver, Val>(s: Seq<Slot<Key, Ver, Val>>, hot: bool) -> int
    decreases s.len(),
{
    if s.len() == 0 {
        0
    } else {
        class_weight(s.drop_last(), hot) + share(s.last(), hot)
    }
}

proof fn lemma_class_weight_nonneg<Key, Ver, Val>(s: Seq<Slot<Key, Ver, Val>>, hot: bool)
    ensures
        class_weight(s, hot) >= 0,
    decreases s.len(),
{
    if s.len() > 0 {
        lemma_class_weight_nonneg(s.drop_last(), hot);
    }
}

proof fn lemma_class_weight_push<Key, Ver, Val>(
    s: Seq<Slot<Key, Ver, Val>>,
    x: Slot<Key, Ver, Val>,
    hot: bool,
)
    ensures
        class_weight(s.push(x), hot) == class_weight(s, hot) + share(x, hot),
{
    assert(s.push(x).drop_last() =~= s);
}

proof fn lemma_class_weight_update<Key, Ver, Val>(
    s: Seq<Slot<Key, Ver, Val>>,
    i: int,
    x: Slot<Key, Ver, Val>,
    hot: bool,
)
    requires
        0 <= i < s.len(),
    ensures
        class_weight(s.update(i, x), hot) == class_weight(s, hot) - share(s[i], hot) + share(
            x,
            hot,
        ),
        class_weight(s, hot) >= share(s[i], hot),
    decreases s.len(),
{
    let t = s.update(i, x);
    lemma_class_weight_nonneg(s.drop_last(), hot);
    if i == s.len() - 1 {
        assert(t.drop_last() =~= s.drop_last());
    } else {
        assert(t.drop_last() =~= s.drop_last().update(i, x));
        lemma_class_weight_update(s.drop_last(), i, x, hot);
        lemma_class_weight_nonneg(s, hot);
        match s.last().entry {
            Some(Ok(r)) => {},
            _ => {},
        }
    }
}

/// A ring's weight is zero when no slot belongs to it.
proof fn lemma_class_weight_zero<Key, Ver, Val>(s: Seq<Slot<Key, Ver, Val>>, hot: bool)
    requires
        forall|i: int| 0 <= i < s.len() ==> #[trigger] share(s[i], hot) == 0,
    ensures
        class_weight(s, hot) == 0,
    decreases s.len(),
{
    if s.len() > 0 {
        assert(share(s[s.len() - 1], hot) == 0);
        lemma_class_weight_zero(s.drop_last(), hot);
    }
}

/// A ring whose members are exactly the non-vacant slots that satisfy `member`.
spec fn ring_ok<Key, Ver, Val>(
    ring: Seq<usize>,
    slots: Seq<Slot<Key, Ver, Val>>,
    member: spec_fn(Option<Entry<Key, Ver, Val>>) -> bool,
) -> bool {
    &&& ring.no_duplicates()
    &&& forall|j: int| 0 <= j < ring.len() ==> #[trigger] ring[j] < slots.len() && member(slots[ring[j] as int].entry)
    &&& forall|i: usize| i < slots.len() && member(#[trigger] slots[i as int].entry) ==> ring.contains(i)
}

spec fn in_hot<Key, Ver, Val>(e: Option<Entry<Key, Ver, Val>>) -> bool {
    e matches Some(Ok(r)) && r.state == ResidentState::Hot
}

spec fn in_cold<Key, Ver, Val>(e: Option<Entry<Key, Ver, Val>>) -> bool {
    e matches Some(Ok(r)) && r.state != ResidentState::Hot
}

spec fn in_ghost<Key, Ver, Val>(e: Option<Entry<Key, Ver, Val>>) -> bool {
    e matches Some(Err(_))
}


/// `==` on `T` is equality of values.
pub open spec fn eq_is_identity<T: PartialEq>() -> bool {
    &&& T::obeys_eq_spec()
    &&& forall|a: T, b: T| #[trigger] a.eq_spec(&b) <==> (a == b)
}

/// Weight kept for hot entries: all but one percent (at least 1) of the capacity.
pub open spec fn hot_target(capacity: u64) -> u64 {
    if capacity / 100 > 1 {
        (capacity - capacity / 100) as u64
    } else {
        (capacity - 1) as u64
    }
}

spec fn resident_is<Key, Ver, Val>(slot: Slot<Key, Ver, Val>, key: Key, version: Ver) -> bool {
    match slot.entry {
        Some(Ok(r)) => r.key == key && r.version == version,
        _ => false,
    }
}

spec fn ghost_hash_ok<Key, Ver, Val>(slot: Slot<Key, Ver, Val>) -> bool {
    match slot.entry {
        Some(Err(h)) => h == slot.hash,
        _ => true,
    }
}

spec fn distinct_residents<Key, Ver, Val>(a: Slot<Key, Ver, Val>, b: Slot<Key, Ver, Val>) -> bool {
    match (a.entry, b.entry) {
        (Some(Ok(x)), Some(Ok(y))) => !(x.key == y.key && x.version == y.version),
        _ => false,
    }
}

spec fn resident_at<Key, Ver, Val>(s: Seq<Slot<Key, Ver, Val>>, i: int, hash: u64, key: Key, version: Ver) -> bool {
    &&& 0 <= i < s.len()
    &&& s[i].hash == hash
    &&& resident_is(s[i], key, version)
}

spec fn find_in<Key, Ver, Val>(s: Seq<Slot<Key, Ver, Val>>, hash: u64, key: Key, version: Ver) -> Option<Resident<Key, Ver, Val>> {
    if exists|i: int| resident_at(s, i, hash, key, version) {
        let i = choose|i: int| resident_at(s, i, hash, key, version);
        match s[i].entry {
            Some(Ok(r)) => Some(r),
            _ => None,
        }
    } else {
        None
    }
}

/// The index lists slot `i` under hash `h`.
spec fn indexed(m: Map<u64, Seq<usize>>, h: u64, i: usize) -> bool {
    m.contains_key(h) && m[h].contains(i)
}

/// A lookup of (hash, key, version) stops at this slot: a resident with that identity,
/// or a ghost with that hash.
spec fn answers<Key, Ver, Val>(slot: Slot<Key, Ver, Val>, hash: u64, key: Key, version: Ver) -> bool {
    &&& slot.hash == hash
    &&& match slot.entry {
        Some(Ok(r)) => r.key == key && r.version == version,
        Some(Err(_)) => true,
        None => false,
    }
}

/// Moves the head of a ring to its back.
fn ring_rotate(ring: &mut Vec<usize>)
    requires
        old(ring)@.len() > 0,
    ensures
        final(ring)@ == old(ring)@.remove(0).push(old(ring)@[0]),
{
    let x = ring.remove(0);
    ring.push(x);
}

/// Takes `idx` out of a ring.
fn ring_remove(ring: &mut Vec<usize>, idx: usize) -> (p: usize)
    requires
        old(ring)@.no_duplicates(),
        old(ring)@.contains(idx),
    ensures
        p < old(ring)@.len(),
        old(ring)@[p as int] == idx,
        final(ring)@ == old(ring)@.remove(p as int),
        final(ring)@.no_duplicates(),
        final(ring)@.len() == old(ring)@.len() - 1,
        forall|x: usize| final(ring)@.contains(x) <==> (old(ring)@.contains(x) && x != idx),
        old(ring)@[0] != idx ==> final(ring)@.len() > 0 && final(ring)@[0] == old(ring)@[0],
{
    let n: usize = ring.len();
    let mut p: usize = 0;
    while ring[p] != idx
        invariant
            ring@.len() == n,
            0 <= p < ring@.len(),
            ring@.contains(idx),
            forall|k: int| 0 <= k < p ==> ring@[k] != idx,
        decreases ring@.len() - p,
    {
        proof {
            let k = choose|k: int| 0 <= k < ring@.len() && ring@[k] == idx;
            assert(ring@[p as int] != idx);
            assert(k > p);
        }
        p = p + 1;
    }
    proof {
        lemma_remove_at(ring@, p as int);
    }
    ring.remove(p);
    p
}

/// Adds `idx` to the index under `hash`.
fn index_add(map: &mut HashIndex, hash: u64, idx: usize)
    ensures
        forall|h: u64, x: usize|
            indexed(index_contents(*final(map)), h, x) <==> (indexed(index_contents(*old(map)), h, x) || (h == hash && x == idx)),
{
    let mut bucket = match map.remove(hash) {
        Some(b) => b,
        None => Vec::new(),
    };
    let ghost b0 = bucket@;
    bucket.push(idx);
    map.insert(hash, bucket);
    assert forall|h: u64, x: usize|
        indexed(index_contents(*map), h, x) <==> (indexed(index_contents(*old(map)), h, x) || (h == hash && x == idx)) by {
        if h == hash {
            if x != idx && index_contents(*map)[h].contains(x) {
                let k = choose|k: int| 0 <= k < index_contents(*map)[h].len() && index_contents(*map)[h][k] == x;
                assert(b0[k] == x);
            }
            if indexed(index_contents(*old(map)), h, x) {
                let k = choose|k: int| 0 <= k < b0.len() && b0[k] == x;
                assert(index_contents(*map)[h][k] == x);
            }
            assert(index_contents(*map)[h][b0.len() as int] == idx);
        }
    }
}

/// Takes `idx` out of the index under `hash`.
fn index_remove(map: &mut HashIndex, hash: u64, idx: usize)
    ensures
        forall|h: u64, x: usize|
            indexed(index_contents(*final(map)), h, x) <==> (indexed(index_contents(*old(map)), h, x) && !(h == hash && x == idx)),
{
    if let Some(bucket) = map.remove(hash) {
        let mut kept: Vec<usize> = Vec::new();
        let mut k: usize = 0;
        while k < bucket.len()
            invariant
                k <= bucket@.len(),
                forall|m: int| 0 <= m < kept@.len() ==> #[trigger] kept@[m] != idx && bucket@.contains(kept@[m]),
                forall|j: int| 0 <= j < k && #[trigger] bucket@[j] != idx ==> kept@.contains(bucket@[j]),
            decreases bucket@.len() - k,
        {
            let x = bucket[k];
            if x != idx {
                let ghost before = kept@;
                kept.push(x);
                assert forall|j: int| 0 <= j < k + 1 && #[trigger] bucket@[j] != idx implies kept@.contains(bucket@[j]) by {
                    if j < k {
                        let m = choose|m: int| 0 <= m < before.len() && before[m] == bucket@[j];
                        assert(kept@[m] == bucket@[j]);
                    } else {
                        assert(kept@[before.len() as int] == bucket@[j]);
                    }
                }
            }
            k = k + 1;
        }
        let ghost kv = kept@;
        if kept.len() > 0 {
            map.insert(hash, kept);
        }
        assert forall|h: u64, x: usize|
            indexed(index_contents(*map), h, x) <==> (indexed(index_contents(*old(map)), h, x) && !(h == hash && x == idx)) by {
            if h == hash {
                if indexed(index_contents(*old(map)), h, x) && x != idx {
                    let j = choose|j: int| 0 <= j < bucket@.len() && bucket@[j] == x;
                    assert(kv.contains(x));
                }
                if indexed(index_contents(*map), h, x) {
                    let m = choose|m: int| 0 <= m < kv.len() && kv[m] == x;
                    assert(kv[m] != idx);
                }
            }
        }
    }
}

/// Two slots that differ at most in a resident's value and reference bit.
spec fn same_shape<Key, Ver, Val>(a: Slot<Key, Ver, Val>, b: Slot<Key, Ver, Val>) -> bool {
    &&& a.hash == b.hash
    &&& match (a.entry, b.entry) {
        (None, None) => true,
        (Some(Err(x)), Some(Err(y))) => x == y,
        (Some(Ok(x)), Some(Ok(y))) => x.key == y.key && x.version == y.version && x.state == y.state
            && x.weight == y.weight && x.value == y.value,
        _ => false,
    }
}

/// The slot with its resident's reference bit set to `b`.
spec fn with_referenced<Key, Ver, Val>(slot: Slot<Key, Ver, Val>, b: bool) -> Slot<Key, Ver, Val> {
    match slot.entry {
        Some(Ok(r)) => Slot { entry: Some(Ok(Resident { referenced: b, ..r })), hash: slot.hash },
        _ => slot,
    }
}

/// The slot with its resident's state set to `st`.
spec fn with_state<Key, Ver, Val>(slot: Slot<Key, Ver, Val>, st: ResidentState) -> Slot<Key, Ver, Val> {
    match slot.entry {
        Some(Ok(r)) => Slot { entry: Some(Ok(Resident { state: st, ..r })), hash: slot.hash },
        _ => slot,
    }
}

/// A resident demoted from the hot ring, with its reference bit clear.
spec fn demoted<Key, Ver, Val>(slot: Slot<Key, Ver, Val>) -> bool {
    match slot.entry {
        Some(Ok(r)) => r.state == ResidentState::ColdDemoted && !r.referenced,
        _ => false,
    }
}

/// `x + 1`, wrapping around at `u64::MAX`.
pub open spec fn wrapping_inc(x: u64) -> u64 {
    if x == u64::MAX {
        0
    } else {
        (x + 1) as u64
    }
}

/// Puts `x` in slot `i` and hands back what was there.
fn replace_slot<Key, Ver, Val>(entries: &mut Vec<Slot<Key, Ver, Val>>, i: usize, x: Slot<Key, Ver, Val>) -> (r: Slot<Key, Ver, Val>)
    requires
        i < old(entries)@.len(),
    ensures
        final(entries)@ == old(entries)@.update(i as int, x),
        r == old(entries)@[i as int],
{
    entries.push(x);
    let r = entries.swap_remove(i);
    assert(entries@ =~= old(entries)@.update(i as int, x));
    r
}

/// No two occupied slots with one hash answer the same lookup.
spec fn slots_unique<Key, Ver, Val>(s: Seq<Slot<Key, Ver, Val>>) -> bool {
    forall|i: int, j: int|
        0 <= i < s.len() && 0 <= j < s.len() && i != j && (#[trigger] s[i]).entry is Some
            && (#[trigger] s[j]).entry is Some && s[i].hash == s[j].hash ==> distinct_residents(s[i], s[j])
}

proof fn lemma_find_in_at<Key, Ver, Val>(s: Seq<Slot<Key, Ver, Val>>, i: int, hash: u64, key: Key, version: Ver)
    requires
        slots_unique(s),
        resident_at(s, i, hash, key, version),
    ensures
        find_in(s, hash, key, version) == Some(s[i].entry->Some_0->Ok_0),
{
    let j = choose|j: int| resident_at(s, j, hash, key, version);
    if j != i {
        assert(distinct_residents(s[i], s[j]));
    }
}

/// A lookup that does not stop at slot `idx` gives the same before and after it changes.
proof fn lemma_find_in_frame<Key, Ver, Val>(
    s: Seq<Slot<Key, Ver, Val>>,
    s2: Seq<Slot<Key, Ver, Val>>,
    idx: int,
    hash: u64,
    key: Key,
    version: Ver,
)
    requires
        slots_unique(s),
        slots_unique(s2),
        agree_except(s, s2, idx),
        !resident_at(s, idx, hash, key, version),
        !resident_at(s2, idx, hash, key, version),
    ensures
        find_in(s2, hash, key, version) == find_in(s, hash, key, version),
{
    if exists|j: int| resident_at(s, j, hash, key, version) {
        let j = choose|j: int| resident_at(s, j, hash, key, version);
        assert(j != idx);
        assert(s2[j] == s[j]);
        assert(resident_at(s2, j, hash, key, version));
        lemma_find_in_at(s, j, hash, key, version);
        lemma_find_in_at(s2, j, hash, key, version);
    } else if exists|j: int| resident_at(s2, j, hash, key, version) {
        let j = choose|j: int| resident_at(s2, j, hash, key, version);
        assert(j != idx);
        assert(j < s.len());
        assert(s2[j] == s[j]);
        assert(resident_at(s, j, hash, key, version));
    }
}

/// Every occupied slot of `s` is listed in `m` under its hash, ghosts record that hash,
/// and no two occupied slots answer the same lookup.
spec fn index_ok<Key, Ver, Val>(s: Seq<Slot<Key, Ver, Val>>, m: Map<u64, Seq<usize>>) -> bool {
    &&& forall|i: int| 0 <= i < s.len() && (#[trigger] s[i]).entry is Some ==> indexed(m, s[i].hash, i as usize)
    &&& forall|i: int| 0 <= i < s.len() ==> ghost_hash_ok(#[trigger] s[i])
    &&& slots_unique(s)
}

/// A resident slot that keeps its hash, key and version.
spec fn same_identity<Key, Ver, Val>(a: Slot<Key, Ver, Val>, b: Slot<Key, Ver, Val>) -> bool {
    &&& a.hash == b.hash
    &&& match (a.entry, b.entry) {
        (Some(Ok(x)), Some(Ok(y))) => x.key == y.key && x.version == y.version,
        _ => false,
    }
}

/// Changing a resident's value, state, weight or reference bit keeps the index consistent.
proof fn lemma_index_same_identity<Key, Ver, Val>(
    s: Seq<Slot<Key, Ver, Val>>,
    m: Map<u64, Seq<usize>>,
    idx: int,
    x: Slot<Key, Ver, Val>,
)
    requires
        index_ok(s, m),
        0 <= idx < s.len(),
        same_identity(s[idx], x),
    ensures
        index_ok(s.update(idx, x), m),
{
    let s2 = s.update(idx, x);
    assert forall|i: int| 0 <= i < s2.len() && (#[trigger] s2[i]).entry is Some implies indexed(m, s2[i].hash, i as usize) by {
        assert(s[i].entry is Some);
    }
    assert forall|i: int, j: int|
        0 <= i < s2.len() && 0 <= j < s2.len() && i != j && (#[trigger] s2[i]).entry is Some
            && (#[trigger] s2[j]).entry is Some && s2[i].hash == s2[j].hash implies distinct_residents(s2[i], s2[j]) by {
        assert(distinct_residents(s[i], s[j]));
    }
    assert forall|i: int| 0 <= i < s2.len() implies ghost_hash_ok(#[trigger] s2[i]) by {
        assert(ghost_hash_ok(s[i]));
    }
}

/// Each resident's recorded weight is what the weighter gives its key, version and value.
spec fn weights_recorded<Key, Ver, Val, We: Weighter<Key, Ver, Val>>(s: Seq<Slot<Key, Ver, Val>>, we: We) -> bool {
    forall|i: int| 0 <= i < s.len() ==> recorded_ok(#[trigger] s[i], we)
}

spec fn recorded_ok<Key, Ver, Val, We: Weighter<Key, Ver, Val>>(slot: Slot<Key, Ver, Val>, we: We) -> bool {
    match slot.entry {
        Some(Ok(r)) => r.weight == we.spec_weight(&r.key, &r.version, &r.value) as u64,
        _ => true,
    }
}

/// Emptying slot `idx`, and dropping it from the index under its hash, keeps the index
/// consistent.
proof fn lemma_index_vacate<Key, Ver, Val>(
    s: Seq<Slot<Key, Ver, Val>>,
    m: Map<u64, Seq<usize>>,
    m2: Map<u64, Seq<usize>>,
    idx: int,
)
    requires
        index_ok(s, m),
        0 <= idx < s.len(),
        s.len() <= usize::MAX,
        forall|h: u64, x: usize| indexed(m2, h, x) <==> (indexed(m, h, x) && !(h == s[idx].hash && x == idx as usize)),
    ensures
        index_ok(s.update(idx, Slot { entry: None, hash: 0 }), m2),
{
    let s2 = s.update(idx, Slot { entry: None, hash: 0 });
    assert forall|i: int| 0 <= i < s2.len() && (#[trigger] s2[i]).entry is Some implies indexed(m2, s2[i].hash, i as usize) by {
        assert(s2[i] == s[i]);
        assert(indexed(m, s[i].hash, i as usize));
    }
    assert forall|i: int, j: int|
        0 <= i < s2.len() && 0 <= j < s2.len() && i != j && (#[trigger] s2[i]).entry is Some
            && (#[trigger] s2[j]).entry is Some && s2[i].hash == s2[j].hash implies distinct_residents(s2[i], s2[j]) by {
        assert(s2[i] == s[i]);
        assert(s2[j] == s[j]);
    }
    assert forall|i: int| 0 <= i < s2.len() implies ghost_hash_ok(#[trigger] s2[i]) by {
        assert(ghost_hash_ok(s[i]));
    }
}

/// `s2` is `s` with slot `idx` replaced, or with one slot `idx` appended.
spec fn agree_except<Key, Ver, Val>(s: Seq<Slot<Key, Ver, Val>>, s2: Seq<Slot<Key, Ver, Val>>, idx: int) -> bool {
    &&& s.len() <= s2.len() <= s.len() + 1
    &&& 0 <= idx < s2.len()
    &&& (s2.len() > s.len() ==> idx == s.len())
    &&& forall|j: int| 0 <= j < s.len() && j != idx ==> #[trigger] s2[j] == s[j]
}

/// A ring that slot `idx` neither enters nor leaves.
proof fn lemma_ring_frame<Key, Ver, Val>(
    ring: Seq<usize>,
    s: Seq<Slot<Key, Ver, Val>>,
    s2: Seq<Slot<Key, Ver, Val>>,
    idx: int,
    member: spec_fn(Option<Entry<Key, Ver, Val>>) -> bool,
)
    requires
        ring_ok(ring, s, member),
        agree_except(s, s2, idx),
        idx < s.len() ==> (member(s[idx].entry) <==> member(s2[idx].entry)),
        idx >= s.len() ==> !member(s2[idx].entry),
    ensures
        ring_ok(ring, s2, member),
{
    assert forall|i: usize| i < s2.len() && member(#[trigger] s2[i as int].entry) implies ring.contains(i) by {
        if i as int != idx {
            assert(s2[i as int] == s[i as int]);
        }
    }
    assert forall|j: int| 0 <= j < ring.len() implies #[trigger] ring[j] < s2.len() && member(s2[ring[j] as int].entry) by {
        if ring[j] as int != idx {
            assert(s2[ring[j] as int] == s[ring[j] as int]);
        }
    }
}

/// A ring that slot `idx` enters at the back.
proof fn lemma_ring_enter<Key, Ver, Val>(
    ring: Seq<usize>,
    s: Seq<Slot<Key, Ver, Val>>,
    s2: Seq<Slot<Key, Ver, Val>>,
    idx: usize,
    member: spec_fn(Option<Entry<Key, Ver, Val>>) -> bool,
)
    requires
        ring_ok(ring, s, member),
        agree_except(s, s2, idx as int),
        idx < s.len() ==> !member(s[idx as int].entry),
        member(s2[idx as int].entry),
    ensures
        ring_ok(ring.push(idx), s2, member),
{
    if ring.contains(idx) {
        let j = choose|j: int| 0 <= j < ring.len() && ring[j] == idx;
        assert(ring[j] < s.len() && member(s[ring[j] as int].entry));
    }
    lemma_push_fresh(ring, idx);
    let r2 = ring.push(idx);
    assert forall|i: usize| i < s2.len() && member(#[trigger] s2[i as int].entry) implies r2.contains(i) by {
        if i != idx {
            assert(s2[i as int] == s[i as int]);
            assert(ring.contains(i));
        }
    }
    assert forall|j: int| 0 <= j < r2.len() implies #[trigger] r2[j] < s2.len() && member(s2[r2[j] as int].entry) by {
        if j < ring.len() {
            assert(r2[j] == ring[j]);
            if ring[j] != idx {
                assert(s2[ring[j] as int] == s[ring[j] as int]);
            }
        }
    }
}

/// A ring that slot `idx`, at position `p`, leaves.
proof fn lemma_ring_leave<Key, Ver, Val>(
    ring: Seq<usize>,
    s: Seq<Slot<Key, Ver, Val>>,
    s2: Seq<Slot<Key, Ver, Val>>,
    p: int,
    member: spec_fn(Option<Entry<Key, Ver, Val>>) -> bool,
)
    requires
        ring_ok(ring, s, member),
        0 <= p < ring.len(),
        agree_except(s, s2, ring[p] as int),
        s2.len() == s.len(),
        !member(s2[ring[p] as int].entry),
    ensures
        ring_ok(ring.remove(p), s2, member),
{
    let idx = ring[p];
    lemma_remove_at(ring, p);
    let r2 = ring.remove(p);
    assert forall|i: usize| i < s2.len() && member(#[trigger] s2[i as int].entry) implies r2.contains(i) by {
        assert(s2[i as int] == s[i as int]);
        assert(ring.contains(i));
    }
    assert forall|j: int| 0 <= j < r2.len() implies #[trigger] r2[j] < s2.len() && member(s2[r2[j] as int].entry) by {
        assert(ring.contains(r2[j]));
        let k = choose|k: int| 0 <= k < ring.len() && ring[k] == r2[j];
        assert(s2[r2[j] as int] == s[r2[j] as int]);
    }
}

/// Moving a ring's head to its back keeps it consistent.
proof fn lemma_ring_rotate<Key, Ver, Val>(
    ring: Seq<usize>,
    s: Seq<Slot<Key, Ver, Val>>,
    member: spec_fn(Option<Entry<Key, Ver, Val>>) -> bool,
)
    requires
        ring_ok(ring, s, member),
        ring.len() > 0,
    ensures
        ring_ok(ring.remove(0).push(ring[0]), s, member),
{
    lemma_rotate(ring);
    let r2 = ring.remove(0).push(ring[0]);
    assert forall|j: int| 0 <= j < r2.len() implies #[trigger] r2[j] < s.len() && member(s[r2[j] as int].entry) by {
        assert(ring.contains(r2[j]));
    }
}

/// A version aware cache shard using a modified CLOCK-PRO eviction policy.
/// Evicted items are returned, so that the caller can drop them.
pub struct VersionedCacheShard<Key, Ver, Val, We, B> {
    hash_builder: B,
    /// Slab indices by entry hash.
    map: HashIndex,
    /// Slab holding the entries.
    entries: Vec<Slot<Key, Ver, Val>>,
    /// Slots freed for reuse.
    free: Vec<usize>,
    /// Cold ring (ColdInTest and ColdDemoted entries), head first.
    cold: Vec<usize>,
    /// Hot ring, head first.
    hot: Vec<usize>,
    /// Ghost ring (hashes of evicted entries), head first.
    ghosts: Vec<usize>,
    weight_target_hot: u64,
    weight_capacity: u64,
    weight_hot: u128,
    weight_cold: u128,
    capacity_non_resident: usize,
    ghost_budget_set: bool,
    hits: u64,
    misses: u64,
    weighter: We,
}

impl<Key: PartialEq, Ver: PartialEq, Val, We: Weighter<Key, Ver, Val>, B> VersionedCacheShard<
    Key,
    Ver,
    Val,
    We,
    B,
> {
    /// The resident stored under this hash, key and version, if any.
    pub closed spec fn find(&self, hash: u64, key: Key, version: Ver) -> Option<Resident<Key, Ver, Val>> {
        find_in(self.entries@, hash, key, version)
    }

    /// The resident's key and version are stored, with its value, under some hash.
    pub open spec fn held(&self, r: Resident<Key, Ver, Val>) -> bool {
        exists|h: u64| #[trigger] self.lookup(h, r.spec_key(), r.spec_version()) == Some(r.spec_value())
    }

    /// `r` was stored in `before` under some hash, and no longer is in `self`.
    pub open spec fn evicted_from(&self, before: &Self, r: Resident<Key, Ver, Val>) -> bool {
        exists|h: u64|
            #[trigger] before.lookup(h, r.spec_key(), r.spec_version()) == Some(r.spec_value())
                && self.lookup(h, r.spec_key(), r.spec_version()) is None
    }

    /// Another occupied slot than the cold head holds the cold head's hash.
    closed spec fn cold_head_collides(&self) -> bool {
        exists|j: int|
            0 <= j < self.entries@.len() && j != self.cold@[0] as int && (#[trigger] self.entries@[j]).entry is Some
                && self.entries@[j].hash == self.entries@[self.cold@[0] as int].hash
    }

    /// The head of the cold ring is a resident whose reference bit is clear.
    closed spec fn cold_head_unreferenced(&self) -> bool {
        &&& self.cold@.len() > 0
        &&& match self.entries@[self.cold@[0] as int].entry {
            Some(Ok(x)) => !x.referenced,
            _ => false,
        }
    }

    /// The value stored under this hash, key and version, if any.
    pub open spec fn lookup(&self, hash: u64, key: Key, version: Ver) -> Option<Val> {
        match self.find(hash, key, version) {
            Some(r) => Some(r.spec_value()),
            None => None,
        }
    }

    pub closed spec fn spec_weight_hot(&self) -> u128 {
        self.weight_hot
    }

    pub closed spec fn spec_weight_cold(&self) -> u128 {
        self.weight_cold
    }

    pub closed spec fn spec_capacity(&self) -> u64 {
        self.weight_capacity
    }

    pub closed spec fn spec_target_hot(&self) -> u64 {
        self.weight_target_hot
    }

    pub closed spec fn num_hot(&self) -> nat {
        self.hot@.len()
    }

    pub closed spec fn num_cold(&self) -> nat {
        self.cold@.len()
    }

    pub closed spec fn num_ghost(&self) -> nat {
        self.ghosts@.len()
    }

    pub closed spec fn ghost_budget(&self) -> nat {
        self.capacity_non_resident as nat
    }

    /// The ghost budget has been set (at the first admission to the cold ring); it does
    /// not change afterwards.
    pub closed spec fn ghost_budget_fixed(&self) -> bool {
        self.ghost_budget_set
    }

    /// Number of slots in the slab, occupied or not.
    pub closed spec fn slab_len(&self) -> nat {
        self.entries@.len()
    }

    pub closed spec fn spec_hits(&self) -> u64 {
        self.hits
    }

    pub closed spec fn spec_misses(&self) -> u64 {
        self.misses
    }

    pub closed spec fn spec_hash_builder(&self) -> B {
        self.hash_builder
    }

    pub closed spec fn spec_weighter(&self) -> We {
        self.weighter
    }

    /// Every slot of a ring is in the state of that ring, and every entry is in its ring.
    pub closed spec fn rings_consistent(&self) -> bool {
        &&& ring_ok(self.hot@, self.entries@, |e| in_hot(e))
        &&& ring_ok(self.cold@, self.entries@, |e| in_cold(e))
        &&& ring_ok(self.ghosts@, self.entries@, |e| in_ghost(e))
    }

    /// Every occupied slot is reachable through the index under its hash, ghosts record
    /// that hash, and no two occupied slots answer the same lookup.
    pub closed spec fn index_consistent(&self) -> bool {
        index_ok(self.entries@, index_contents(self.map))
    }

    /// Invariant that holds between the steps of an eviction.
    pub closed spec fn inv(&self) -> bool {
        &&& self.inv_core()
        &&& self.ghosts@.len() <= self.capacity_non_resident
    }

    /// The invariant, but for the bound on the number of ghosts.
    closed spec fn inv_core(&self) -> bool {
        &&& 2 <= self.weight_capacity
        &&& self.entries@.len() <= usize::MAX
        &&& self.weight_target_hot == hot_target(self.weight_capacity)
        &&& self.weight_hot == class_weight(self.entries@, true)
        &&& self.weight_cold == class_weight(self.entries@, false)
        &&& self.weight_hot + self.weight_cold <= 2 * self.weight_capacity
        &&& !self.ghost_budget_set ==> self.capacity_non_resident == 0
        &&& weights_recorded(self.entries@, self.weighter)
        &&& self.rings_consistent()
        &&& self.index_consistent()
        &&& eq_is_identity::<Key>()
        &&& eq_is_identity::<Ver>()
    }

    /// Replacing a slot by one of the same shape keeps the invariant and every lookup
    /// other than the one of that slot.
    proof fn lemma_same_shape(old_s: &Self, new_s: &Self, i: int)
        requires
            old_s.inv(),
            0 <= i < old_s.entries@.len(),
            new_s.entries@ == old_s.entries@.update(i, new_s.entries@[i]),
            same_shape(old_s.entries@[i], new_s.entries@[i]),
            index_contents(new_s.map) == index_contents(old_s.map),
            new_s.hot@ == old_s.hot@,
            new_s.cold@ == old_s.cold@,
            new_s.ghosts@ == old_s.ghosts@,
            new_s.weight_capacity == old_s.weight_capacity,
            new_s.weight_target_hot == old_s.weight_target_hot,
            new_s.weight_hot == old_s.weight_hot,
            new_s.weight_cold == old_s.weight_cold,
            new_s.capacity_non_resident == old_s.capacity_non_resident,
            new_s.ghost_budget_set == old_s.ghost_budget_set,
            new_s.weighter == old_s.weighter,
        ensures
            new_s.inv(),
    {
        lemma_class_weight_update(old_s.entries@, i, new_s.entries@[i], true);
        lemma_class_weight_update(old_s.entries@, i, new_s.entries@[i], false);
        assert(new_s.rings_consistent());
        assert(new_s.index_consistent());
    }

    /// After a same-shape replacement of slot `i`, a lookup gives what it gave before,
    /// or the new resident where it stops at slot `i`.
    proof fn lemma_same_shape_find(old_s: &Self, new_s: &Self, i: int, hash: u64, key: Key, version: Ver)
        requires
            old_s.inv(),
            new_s.inv(),
            0 <= i < old_s.entries@.len(),
            new_s.entries@ == old_s.entries@.update(i, new_s.entries@[i]),
            same_shape(old_s.entries@[i], new_s.entries@[i]),
        ensures
            resident_at(old_s.entries@, i, hash, key, version) ==> new_s.find(hash, key, version) == Some(
                new_s.entries@[i].entry->Some_0->Ok_0,
            ),
            !resident_at(old_s.entries@, i, hash, key, version) ==> new_s.find(hash, key, version)
                == old_s.find(hash, key, version),
    {
        if exists|j: int| resident_at(old_s.entries@, j, hash, key, version) {
            let j = choose|j: int| resident_at(old_s.entries@, j, hash, key, version);
            old_s.lemma_find_at(j, hash, key, version);
            if j != i {
                assert(new_s.entries@[j] == old_s.entries@[j]);
            } else {
                match (old_s.entries@[i].entry, new_s.entries@[i].entry) {
                    (Some(Ok(x)), Some(Ok(y))) => {},
                    _ => {},
                }
            }
            assert(resident_at(new_s.entries@, j, hash, key, version));
            new_s.lemma_find_at(j, hash, key, version);
            if resident_at(old_s.entries@, i, hash, key, version) && i != j {
                assert(distinct_residents(old_s.entries@[i], old_s.entries@[j]));
            }
            if !resident_at(old_s.entries@, i, hash, key, version) {
                assert(j != i);
                assert(new_s.find(hash, key, version) == Some(new_s.entries@[j].entry->Some_0->Ok_0));
                assert(old_s.find(hash, key, version) == Some(old_s.entries@[j].entry->Some_0->Ok_0));
            }
        } else {
            if exists|j: int| resident_at(new_s.entries@, j, hash, key, version) {
                let j = choose|j: int| resident_at(new_s.entries@, j, hash, key, version);
                if j != i {
                    assert(new_s.entries@[j] == old_s.entries@[j]);
                } else {
                    match (old_s.entries@[i].entry, new_s.entries@[i].entry) {
                        (Some(Ok(x)), Some(Ok(y))) => {},
                        _ => {},
                    }
                }
                assert(resident_at(old_s.entries@, j, hash, key, version));
            }
        }
    }

    /// What a lookup that stopped (or did not) at a slot says about `find`.
    proof fn lemma_search_find(&self, r: Option<usize>, hash: u64, key: Key, version: Ver)
        requires
            self.inv(),
            match r {
                Some(i) => i < self.entries@.len() && answers(self.entries@[i as int], hash, key, version),
                None => forall|i: int| 0 <= i < self.entries@.len() ==> !answers(#[trigger] self.entries@[i], hash, key, version),
            },
        ensures
            match r {
                Some(i) => match self.entries@[i as int].entry {
                    Some(Ok(res)) => resident_at(self.entries@, i as int, hash, key, version)
                        && self.find(hash, key, version) == Some(res),
                    _ => self.find(hash, key, version) is None,
                },
                None => self.find(hash, key, version) is None,
            },
    {
        match r {
            Some(i) => {
                match self.entries@[i as int].entry {
                    Some(Ok(res)) => {
                        self.lemma_find_at(i as int, hash, key, version);
                    },
                    _ => {
                        if exists|j: int| resident_at(self.entries@, j, hash, key, version) {
                            let j = choose|j: int| resident_at(self.entries@, j, hash, key, version);
                            assert(distinct_residents(self.entries@[i as int], self.entries@[j]));
                        }
                    },
                }
            },
            None => {
                if exists|j: int| resident_at(self.entries@, j, hash, key, version) {
                    let j = choose|j: int| resident_at(self.entries@, j, hash, key, version);
                    assert(answers(self.entries@[j], hash, key, version));
                }
            },
        }
    }

    /// With no resident of that identity and no ghost of that hash, no slot answers the
    /// lookup.
    proof fn lemma_no_answer(&self, hash: u64, key: Key, version: Ver)
        requires
            self.inv(),
            self.find(hash, key, version) is None,
            !self.has_ghost(hash),
        ensures
            forall|i: int| 0 <= i < self.entries@.len() ==> !answers(#[trigger] self.entries@[i], hash, key, version),
    {
        assert forall|i: int| 0 <= i < self.entries@.len() implies !answers(#[trigger] self.entries@[i], hash, key, version) by {
            if answers(self.entries@[i], hash, key, version) {
                match self.entries@[i].entry {
                    Some(Ok(_)) => {
                        lemma_find_in_at(self.entries@, i, hash, key, version);
                    },
                    _ => {
                        assert(ghost_hash_ok(self.entries@[i]));
                    },
                }
            }
        }
    }

    /// A resident found at slot `i` is what `find` gives.
    proof fn lemma_find_at(&self, i: int, hash: u64, key: Key, version: Ver)
        requires
            self.inv(),
            resident_at(self.entries@, i, hash, key, version),
        ensures
            self.find(hash, key, version) == Some(self.entries@[i].entry->Some_0->Ok_0),
    {
        let j = choose|j: int| resident_at(self.entries@, j, hash, key, version);
        if j != i {
            assert(distinct_residents(self.entries@[i], self.entries@[j]));
        }
    }

    /// The two shards hold the same entries, rings, index, counters and weighter.
    pub closed spec fn same_state(&self, other: &Self) -> bool {
        &&& self.entries@ == other.entries@
        &&& self.free@ == other.free@
        &&& self.same_but_entries(other)
    }

    /// The two shards agree in all but the slab.
    closed spec fn same_but_entries(&self, other: &Self) -> bool {
        &&& index_contents(self.map) == index_contents(other.map)
        &&& self.hot@ == other.hot@
        &&& self.cold@ == other.cold@
        &&& self.ghosts@ == other.ghosts@
        &&& self.weight_target_hot == other.weight_target_hot
        &&& self.weight_capacity == other.weight_capacity
        &&& self.weight_hot == other.weight_hot
        &&& self.weight_cold == other.weight_cold
        &&& self.capacity_non_resident == other.capacity_non_resident
        &&& self.ghost_budget_set == other.ghost_budget_set
        &&& self.hits == other.hits
        &&& self.misses == other.misses
        &&& self.weighter == other.weighter
        &&& self.hash_builder == other.hash_builder
    }

    /// The resident rings, weights, budgets and counters are those of `other`.
    closed spec fn keeps_residents(&self, other: &Self) -> bool {
        &&& self.hot@ == other.hot@
        &&& self.cold@ == other.cold@
        &&& self.weight_target_hot == other.weight_target_hot
        &&& self.weight_capacity == other.weight_capacity
        &&& self.weight_hot == other.weight_hot
        &&& self.weight_cold == other.weight_cold
        &&& self.capacity_non_resident == other.capacity_non_resident
        &&& self.ghost_budget_set == other.ghost_budget_set
        &&& self.hits == other.hits
        &&& self.misses == other.misses
        &&& self.weighter == other.weighter
        &&& self.hash_builder == other.hash_builder
    }

    /// Capacity, hot target, ghost budget, counters, weighter and hash builder agree.
    closed spec fn same_budgets(&self, other: &Self) -> bool {
        &&& self.entries@.len() == other.entries@.len()
        &&& self.weight_target_hot == other.weight_target_hot
        &&& self.weight_capacity == other.weight_capacity
        &&& self.capacity_non_resident == other.capacity_non_resident
        &&& self.ghost_budget_set == other.ghost_budget_set
        &&& self.hits == other.hits
        &&& self.misses == other.misses
        &&& self.weighter == other.weighter
        &&& self.hash_builder == other.hash_builder
    }

    /// An empty resident ring weighs nothing.
    proof fn lemma_empty_ring_weight(&self)
        requires
            self.inv_core(),
        ensures
            self.hot@.len() == 0 ==> self.weight_hot == 0,
            self.cold@.len() == 0 ==> self.weight_cold == 0,
    {
        let s = self.entries@;
        if self.hot@.len() == 0 {
            assert forall|i: int| 0 <= i < s.len() implies #[trigger] share(s[i], true) == 0 by {
                if share(s[i], true) != 0 {
                    assert(in_hot(s[i as usize as int].entry));
                    assert(self.hot@.contains(i as usize));
                }
            }
            lemma_class_weight_zero(s, true);
        }
        if self.cold@.len() == 0 {
            assert forall|i: int| 0 <= i < s.len() implies #[trigger] share(s[i], false) == 0 by {
                if share(s[i], false) != 0 {
                    assert(in_cold(s[i as usize as int].entry));
                    assert(self.cold@.contains(i as usize));
                }
            }
            lemma_class_weight_zero(s, false);
        }
    }

    /// Some slot holds a ghost with this hash.
    pub closed spec fn has_ghost(&self, hash: u64) -> bool {
        exists|i: int| 0 <= i < self.entries@.len() && (#[trigger] self.entries@[i]).entry == Some(Err::<Resident<Key, Ver, Val>, u64>(hash))
    }

    /// Every ghost hash of `self` was a ghost hash of `before`.
    pub open spec fn no_new_ghosts(&self, before: &Self) -> bool {
        forall|h: u64| #[trigger] self.has_ghost(h) ==> before.has_ghost(h)
    }

    /// The slab has no room for another slot.
    pub open spec fn slab_full(&self) -> bool {
        self.slab_len() == usize::MAX
    }

    /// Invariant of the shard between public calls.
    pub open spec fn wf(&self) -> bool {
        &&& self.inv()
        &&& self.spec_weight_hot() + self.spec_weight_cold() <= self.spec_capacity()
    }
}

impl<Key: PartialEq, Ver: PartialEq, Val, We: Weighter<Key, Ver, Val>, B> VersionedCacheShard<
    Key,
    Ver,
    Val,
    We,
    B,
> {
    /// An empty shard. The capacity is raised to at least 2; one percent of it (at
    /// least 1) is kept for cold entries.
    ///
    /// Keys and versions are told apart with `==`, which must be equality of values.
    /// vstd states that for the integer types and tuples of them, so verified callers
    /// use such keys and versions; `()`, `String` and `Vec` have no such statement.
    pub fn new(max_capacity: u64, weighter: We, hash_builder: B) -> (r: Self)
        requires
            eq_is_identity::<Key>(),
            eq_is_identity::<Ver>(),
        ensures
            r.wf(),
            r.spec_capacity() == if max_capacity < 2 {
                2
            } else {
                max_capacity
            },
            r.spec_target_hot() == hot_target(r.spec_capacity()),
            r.spec_weight_hot() == 0,
            r.spec_weight_cold() == 0,
            r.num_hot() == 0,
            r.num_cold() == 0,
            r.num_ghost() == 0,
            r.spec_hits() == 0,
            r.spec_misses() == 0,
            r.spec_weighter() == weighter,
            forall|h: u64, k: Key, v: Ver| r.find(h, k, v) is None,
            forall|h: u64| !r.has_ghost(h),
            !r.slab_full(),
            r.slab_len() == 0,
            r.ghost_budget() == 0,
            !r.ghost_budget_fixed(),
    {
        let capacity: u64 = if max_capacity < 2 {
            2
        } else {
            max_capacity
        };
        let one_percent: u64 = capacity / 100;
        let cold_budget: u64 = if one_percent > 1 { one_percent } else { 1 };
        let r = VersionedCacheShard {
            hash_builder,
            map: HashIndex::new(),
            entries: Vec::new(),
            free: Vec::new(),
            cold: Vec::new(),
            hot: Vec::new(),
            ghosts: Vec::new(),
            weight_target_hot: capacity - cold_budget,
            weight_capacity: capacity,
            weight_hot: 0,
            weight_cold: 0,
            capacity_non_resident: 0,
            ghost_budget_set: false,
            hits: 0,
            misses: 0,
            weighter,
        };
        assert(r.rings_consistent());
        r
    }

    /// The hash builder that the shard was made with.
    pub fn hash_builder(&self) -> (r: &B)
        ensures
            *r == self.spec_hash_builder(),
    {
        &self.hash_builder
    }

    /// Grows the index ahead of `additional` more entries, with room for their ghosts
    /// (about 56% more), asking for at most `RESERVE_LIMIT` at once. Nothing visible
    /// changes.
    pub fn reserve(&mut self, additional: usize)
        requires
            old(self).wf(),
        ensures
            final(self).wf(),
            final(self).same_state(old(self)),
    {
        let extra: usize = additional.saturating_add(additional / 2 + additional / 16);
        let extra: usize = if extra > RESERVE_LIMIT { RESERVE_LIMIT } else { extra };
        self.map.reserve(extra);
    }

    /// Total weight of the resident entries.
    pub fn weight(&self) -> (r: u64)
        requires
            self.wf(),
        ensures
            r == self.spec_weight_hot() + self.spec_weight_cold(),
            r <= self.spec_capacity(),
    {
        (self.weight_hot + self.weight_cold) as u64
    }

    /// Number of resident entries; ghosts do not count.
    pub fn len(&self) -> (r: usize)
        ensures
            r == if self.num_hot() + self.num_cold() <= usize::MAX {
                self.num_hot() + self.num_cold()
            } else {
                usize::MAX as nat
            },
    {
        self.hot.len().saturating_add(self.cold.len())
    }

    /// The weight capacity.
    pub fn capacity(&self) -> (r: u64)
        ensures
            r == self.spec_capacity(),
    {
        self.weight_capacity
    }

    /// Number of `get` calls that found their entry.
    pub fn hits(&self) -> (r: u64)
        ensures
            r == self.spec_hits(),
    {
        self.hits
    }

    /// Number of `get` calls that did not find their entry.
    pub fn misses(&self) -> (r: u64)
        ensures
            r == self.spec_misses(),
    {
        self.misses
    }

    /// The slot where a lookup of (hash, key, version) stops, if any.
    fn search(&self, hash: u64, key: &Key, version: &Ver) -> (r: Option<usize>)
        requires
            self.inv(),
        ensures
            match r {
                Some(i) => i < self.entries@.len() && answers(self.entries@[i as int], hash, *key, *version),
                None => forall|i: int| 0 <= i < self.entries@.len() ==> !answers(#[trigger] self.entries@[i], hash, *key, *version),
            },
    {
        let n: usize = self.entries.len();
        let bucket = match self.map.get(hash) {
            Some(b) => b,
            None => {
                assert forall|i: int| 0 <= i < self.entries@.len() implies !answers(#[trigger] self.entries@[i], hash, *key, *version) by {
                    if answers(self.entries@[i], hash, *key, *version) {
                        assert(indexed(index_contents(self.map), hash, i as usize));
                    }
                }
                return None;
            },
        };
        let mut k: usize = 0;
        while k < bucket.len()
            invariant
                self.inv(),
                index_contents(self.map).contains_key(hash),
                bucket@ == index_contents(self.map)[hash],
                k <= bucket@.len(),
                forall|j: int| 0 <= j < k ==> !(#[trigger] bucket@[j] < self.entries@.len()
                    && answers(self.entries@[bucket@[j] as int], hash, *key, *version)),
            decreases bucket@.len() - k,
        {
            let i = bucket[k];
            if i < self.entries.len() {
                let slot = &self.entries[i];
                if slot.hash == hash {
                    match &slot.entry {
                        Some(Ok(r)) => {
                            if r.key == *key && r.version == *version {
                                return Some(i);
                            }
                        },
                        Some(Err(_)) => {
                            return Some(i);
                        },
                        None => {},
                    }
                }
            }
            k = k + 1;
        }
        assert forall|i: int| 0 <= i < self.entries@.len() implies !answers(#[trigger] self.entries@[i], hash, *key, *version) by {
            if answers(self.entries@[i], hash, *key, *version) {
                assert(indexed(index_contents(self.map), hash, i as usize));
                
                let j = choose|j: int| 0 <= j < bucket@.len() && bucket@[j] == i as usize;
                assert(i <= n);
                assert(answers(self.entries@[bucket@[j] as int], hash, *key, *version));
            }
        }
        None
    }

    /// Sets the reference bit of the resident in slot `i`.
    fn set_referenced(&mut self, i: usize, b: bool)
        requires
            old(self).inv(),
            i < old(self).entries@.len(),
            old(self).entries@[i as int].entry matches Some(Ok(_)),
        ensures
            final(self).inv(),
            final(self).entries@ == old(self).entries@.update(i as int, with_referenced(old(self).entries@[i as int], b)),
            final(self).same_but_entries(old(self)),
            forall|h: u64, k: Key, v: Ver| #[trigger] final(self).lookup(h, k, v) == old(self).lookup(h, k, v),
            forall|h: u64, k: Key, v: Ver|
                !resident_at(old(self).entries@, i as int, h, k, v) ==> #[trigger] final(self).find(h, k, v) == old(self).find(h, k, v),
    {
        let slot = replace_slot(&mut self.entries, i, Slot { entry: None, hash: 0 });
        let Slot { entry, hash } = slot;
        match entry {
            Some(Ok(mut r)) => {
                r.referenced = b;
                replace_slot(&mut self.entries, i, Slot { entry: Some(Ok(r)), hash });
            },
            other => {
                replace_slot(&mut self.entries, i, Slot { entry: other, hash });
            },
        }
        assert(self.entries@ =~= old(self).entries@.update(i as int, with_referenced(old(self).entries@[i as int], b)));
        proof {
            Self::lemma_same_shape(old(self), self, i as int);
            assert forall|h: u64, k: Key, v: Ver|
                !resident_at(old(self).entries@, i as int, h, k, v) implies #[trigger] self.find(h, k, v) == old(self).find(h, k, v) by {
                Self::lemma_same_shape_find(old(self), self, i as int, h, k, v);
            }
            assert forall|h: u64, k: Key, v: Ver| #[trigger] self.lookup(h, k, v) == old(self).lookup(h, k, v) by {
                Self::lemma_same_shape_find(old(self), self, i as int, h, k, v);
                if resident_at(old(self).entries@, i as int, h, k, v) {
                    old(self).lemma_find_at(i as int, h, k, v);
                }
            }
        }
    }

    /// Sets the state of the resident in slot `i`; the rings and weights are the caller's.
    fn set_state(&mut self, i: usize, st: ResidentState)
        requires
            i < old(self).entries@.len(),
        ensures
            final(self).entries@ == old(self).entries@.update(i as int, with_state(old(self).entries@[i as int], st)),
            final(self).same_but_entries(old(self)),
    {
        let slot = replace_slot(&mut self.entries, i, Slot { entry: None, hash: 0 });
        let Slot { entry, hash } = slot;
        match entry {
            Some(Ok(mut r)) => {
                r.state = st;
                replace_slot(&mut self.entries, i, Slot { entry: Some(Ok(r)), hash });
            },
            other => {
                replace_slot(&mut self.entries, i, Slot { entry: other, hash });
            },
        }
        assert(self.entries@ =~= old(self).entries@.update(i as int, with_state(old(self).entries@[i as int], st)));
    }

    /// Looks up an entry and marks it referenced. Counts a hit if a resident is found,
    /// else a miss.
    pub fn get(&mut self, hash: u64, key: &Key, version: &Ver) -> (r: Option<&Val>)
        requires
            old(self).wf(),
        ensures
            final(self).wf(),
            match r {
                Some(v) => old(self).lookup(hash, *key, *version) == Some(*v),
                None => old(self).lookup(hash, *key, *version) is None,
            },
            forall|h: u64, k: Key, v: Ver| #[trigger] final(self).lookup(h, k, v) == old(self).lookup(h, k, v),
            forall|h: u64, k: Key, v: Ver|
                !(h == hash && k == *key && v == *version) ==> #[trigger] final(self).find(h, k, v) == old(self).find(h, k, v),
            final(self).find(hash, *key, *version) == marked(old(self).find(hash, *key, *version)),
            old(self).find(hash, *key, *version) matches Some(x) ==> final(self).find(hash, *key, *version) matches Some(y)
                && y.spec_key() == x.spec_key() && y.spec_version() == x.spec_version() && y.spec_value() == x.spec_value()
                && y.spec_state() == x.spec_state() && y.spec_weight() == x.spec_weight() && y.spec_referenced(),
            final(self).find(hash, *key, *version) is Some == old(self).find(hash, *key, *version) is Some,
            final(self).find(hash, *key, *version).unwrap().spec_weight() == old(self).find(hash, *key, *version).unwrap().spec_weight(),
            r is Some ==> final(self).find(hash, *key, *version).unwrap().spec_referenced(),
            r is Some ==> final(self).spec_hits() == wrapping_inc(old(self).spec_hits())
                && final(self).spec_misses() == old(self).spec_misses(),
            r is None ==> final(self).spec_misses() == wrapping_inc(old(self).spec_misses())
                && final(self).spec_hits() == old(self).spec_hits(),
            final(self).spec_weight_hot() == old(self).spec_weight_hot(),
            final(self).spec_weight_cold() == old(self).spec_weight_cold(),
            final(self).num_hot() == old(self).num_hot(),
            final(self).num_cold() == old(self).num_cold(),
            final(self).num_ghost() == old(self).num_ghost(),
            final(self).spec_capacity() == old(self).spec_capacity(),
            final(self).spec_target_hot() == old(self).spec_target_hot(),
            final(self).spec_weighter() == old(self).spec_weighter(),
            forall|h: u64| final(self).has_ghost(h) == old(self).has_ghost(h),
            final(self).slab_full() == old(self).slab_full(),
            final(self).slab_len() == old(self).slab_len(),
            final(self).ghost_budget() == old(self).ghost_budget(),
            final(self).ghost_budget_fixed() == old(self).ghost_budget_fixed(),
    {
        let found = self.search(hash, key, version);
        proof {
            self.lemma_search_find(found, hash, *key, *version);
        }
        if let Some(i) = found {
            if let Some(Ok(_)) = &self.entries[i].entry {
                self.set_referenced(i, true);
                let ghost mid = *self;
                self.hits = self.hits.wrapping_add(1);
                proof {
                    old(self).lemma_find_at(i as int, hash, *key, *version);
                    assert forall|h: u64, k: Key, v: Ver|
                        !(h == hash && k == *key && v == *version) implies #[trigger] self.find(h, k, v) == old(self).find(h, k, v) by {
                        assert(mid.find(h, k, v) == old(self).find(h, k, v));
                    }
                    assert forall|h: u64, k: Key, v: Ver| #[trigger] self.lookup(h, k, v) == old(self).lookup(h, k, v) by {
                        assert(mid.lookup(h, k, v) == old(self).lookup(h, k, v));
                    }
                    Self::lemma_same_shape_find(old(self), self, i as int, hash, *key, *version);
                }
                return match &self.entries[i].entry {
                    Some(Ok(res)) => Some(&res.value),
                    _ => None,
                };
            }
        }
        self.misses = self.misses.wrapping_add(1);
        None
    }

    /// Looks up an entry without marking it or counting the lookup.
    pub fn peek(&self, hash: u64, key: &Key, version: &Ver) -> (r: Option<&Val>)
        requires
            self.wf(),
        ensures
            match r {
                Some(v) => self.lookup(hash, *key, *version) == Some(*v),
                None => self.lookup(hash, *key, *version) is None,
            },
    {
        let found = self.search(hash, key, version);
        proof {
            self.lemma_search_find(found, hash, *key, *version);
        }
        match found {
            Some(i) => match &self.entries[i].entry {
                Some(Ok(res)) => Some(&res.value),
                _ => None,
            },
            None => None,
        }
    }

    /// Drops the ghost at the head of the ghost ring.
    fn advance_ghost(&mut self)
        requires
            old(self).inv_core(),
            old(self).ghosts@.len() > 0,
        ensures
            final(self).inv_core(),
            final(self).ghosts@.len() == old(self).ghosts@.len() - 1,
            final(self).ghosts@ == old(self).ghosts@.remove(0),
            final(self).entries@.len() == old(self).entries@.len(),
            final(self).keeps_residents(old(self)),
            forall|h: u64, k: Key, v: Ver| #[trigger] final(self).find(h, k, v) == old(self).find(h, k, v),
    {
        let idx = self.ghosts[0];
        let hash = self.entries[idx].hash;
        index_remove(&mut self.map, hash, idx);
        self.ghosts.remove(0);
        replace_slot(&mut self.entries, idx, Slot { entry: None, hash: 0 });
        self.free.push(idx);
        proof {
            let s = old(self).entries@;
            let s2 = self.entries@;
            assert(agree_except(s, s2, idx as int));
            lemma_ring_frame(self.hot@, s, s2, idx as int, |e| in_hot(e));
            lemma_ring_frame(self.cold@, s, s2, idx as int, |e| in_cold(e));
            lemma_ring_leave(old(self).ghosts@, s, s2, 0, |e| in_ghost(e));
            assert(old(self).ghosts@.remove(0) =~= self.ghosts@);
            lemma_class_weight_update(s, idx as int, s2[idx as int], true);
            lemma_class_weight_update(s, idx as int, s2[idx as int], false);
            assert(s2 =~= s.update(idx as int, s2[idx as int]));
            lemma_index_vacate(s, index_contents(old(self).map), index_contents(self.map), idx as int);
            assert(s2 =~= s.update(idx as int, Slot { entry: None, hash: 0 }));
            assert forall|h: u64, k: Key, v: Ver| #[trigger] self.find(h, k, v) == old(self).find(h, k, v) by {
                lemma_find_in_frame(s, s2, idx as int, h, k, v);
            }
        }
    }

    /// Clock walk on the hot ring: clears reference bits until an unreferenced hot entry
    /// comes up, and demotes it to the cold ring.
    fn advance_hot(&mut self)
        requires
            old(self).inv(),
            old(self).hot@.len() > 0,
        ensures
            final(self).inv(),
            final(self).hot@.len() == old(self).hot@.len() - 1,
            final(self).cold@.len() == old(self).cold@.len() + 1,
            final(self).ghosts@ == old(self).ghosts@,
            final(self).weight_hot + final(self).weight_cold == old(self).weight_hot + old(self).weight_cold,
            final(self).weight_hot <= old(self).weight_hot,
            old(self).hot@.contains(final(self).cold@.last()),
            final(self).cold@.drop_last() == old(self).cold@,
            demoted(final(self).entries@[final(self).cold@.last() as int]),
            final(self).weight_hot == old(self).weight_hot - share(final(self).entries@[final(self).cold@.last() as int], false),
            final(self).same_budgets(old(self)),
            forall|h: u64, k: Key, v: Ver| #[trigger] final(self).lookup(h, k, v) == old(self).lookup(h, k, v),
    {
        let n: usize = self.hot.len();
        let mut steps: usize = 0;
        loop
            invariant
                self.inv(),
                self.hot@.len() == n,
                n > 0,
                steps <= n,
                forall|x: usize| self.hot@.contains(x) == old(self).hot@.contains(x),
                self.cold@ == old(self).cold@,
                self.ghosts@ == old(self).ghosts@,
                self.weight_hot == old(self).weight_hot,
                self.weight_cold == old(self).weight_cold,
                self.same_budgets(old(self)),
                forall|h: u64, k: Key, v: Ver| #[trigger] self.lookup(h, k, v) == old(self).lookup(h, k, v),
            decreases n - steps,
        {
            let idx = self.hot[0];
            let referenced = match &self.entries[idx].entry {
                Some(Ok(r)) => r.referenced,
                _ => false,
            };
            if referenced && steps < n {
                let ghost before = *self;
                self.set_referenced(idx, false);
                let ghost mid = *self;
                proof {
                    lemma_ring_rotate(self.hot@, self.entries@, |e| in_hot(e));
                    lemma_rotate(self.hot@);
                }
                ring_rotate(&mut self.hot);
                proof {
                    assert forall|h: u64, k: Key, v: Ver| #[trigger] self.lookup(h, k, v) == old(self).lookup(h, k, v) by {
                        assert(before.lookup(h, k, v) == old(self).lookup(h, k, v));
                        assert(mid.lookup(h, k, v) == before.lookup(h, k, v));
                    }
                }
                steps = steps + 1;
            } else {
                break;
            }
        }
        let idx = self.hot[0];
        // a full sweep has cleared every bit; should the head still be marked, clear it
        let marked_head = match &self.entries[idx].entry {
            Some(Ok(r)) => r.referenced,
            _ => false,
        };
        if marked_head {
            let ghost a = *self;
            self.set_referenced(idx, false);
            assert forall|h: u64, k: Key, v: Ver| #[trigger] self.lookup(h, k, v) == old(self).lookup(h, k, v) by {
                assert(a.lookup(h, k, v) == old(self).lookup(h, k, v));
            }
        }
        let ghost before = *self;
        let ghost s = self.entries@;
        proof {
            assert(self.hot@.contains(idx));
            assert(s[idx as int].entry is Some);
            lemma_class_weight_update(s, idx as int, with_state(s[idx as int], ResidentState::ColdDemoted), true);
            lemma_class_weight_update(s, idx as int, with_state(s[idx as int], ResidentState::ColdDemoted), false);
        }
        let w: u64 = match &self.entries[idx].entry {
            Some(Ok(r)) => r.weight,
            _ => 0,
        };
        self.set_state(idx, ResidentState::ColdDemoted);
        self.hot.remove(0);
        self.cold.push(idx);
        self.weight_hot = self.weight_hot - w as u128;
        self.weight_cold = self.weight_cold + w as u128;
        proof {
            let s2 = self.entries@;
            assert(agree_except(s, s2, idx as int));
            lemma_ring_leave(before.hot@, s, s2, 0, |e| in_hot(e));
            assert(before.hot@.remove(0) =~= self.hot@);
            lemma_ring_enter(before.cold@, s, s2, idx, |e| in_cold(e));
            lemma_ring_frame(self.ghosts@, s, s2, idx as int, |e| in_ghost(e));
            lemma_index_same_identity(s, index_contents(self.map), idx as int, s2[idx as int]);
            assert(s2 =~= s.update(idx as int, s2[idx as int]));
            assert forall|h: u64, k: Key, v: Ver| #[trigger] self.lookup(h, k, v) == old(self).lookup(h, k, v) by {
                assert(before.lookup(h, k, v) == old(self).lookup(h, k, v));
                if resident_at(s, idx as int, h, k, v) {
                    lemma_find_in_at(s, idx as int, h, k, v);
                    lemma_find_in_at(s2, idx as int, h, k, v);
                } else {
                    lemma_find_in_frame(s, s2, idx as int, h, k, v);
                }
            }
        }
    }

    /// Some other occupied slot than `idx` has this hash.
    fn search_collision(&self, hash: u64, idx: usize) -> (r: bool)
        requires
            self.inv_core(),
        ensures
            r == exists|j: int|
                0 <= j < self.entries@.len() && j != idx && (#[trigger] self.entries@[j]).entry is Some
                    && self.entries@[j].hash == hash,
    {
        let n: usize = self.entries.len();
        let bucket = match self.map.get(hash) {
            Some(b) => b,
            None => {
                assert forall|j: int| 0 <= j < n && j != idx && (#[trigger] self.entries@[j]).entry is Some
                    implies self.entries@[j].hash != hash by {
                    if self.entries@[j].hash == hash {
                        assert(indexed(index_contents(self.map), hash, j as usize));
                    }
                }
                return false;
            },
        };
        let mut k: usize = 0;
        while k < bucket.len()
            invariant
                self.inv_core(),
                n == self.entries@.len(),
                index_contents(self.map).contains_key(hash),
                bucket@ == index_contents(self.map)[hash],
                k <= bucket@.len(),
                forall|m: int| 0 <= m < k ==> !(#[trigger] bucket@[m] < n && bucket@[m] != idx
                    && self.entries@[bucket@[m] as int].entry is Some
                    && self.entries@[bucket@[m] as int].hash == hash),
            decreases bucket@.len() - k,
        {
            let i = bucket[k];
            if i < n && i != idx {
                let slot = &self.entries[i];
                if slot.hash == hash {
                    if let Some(_) = &slot.entry {
                        return true;
                    }
                }
            }
            k = k + 1;
        }
        assert forall|j: int| 0 <= j < n && j != idx && (#[trigger] self.entries@[j]).entry is Some
            implies self.entries@[j].hash != hash by {
            if self.entries@[j].hash == hash {
                assert(indexed(index_contents(self.map), hash, j as usize));
                
                let m = choose|m: int| 0 <= m < bucket@.len() && bucket@[m] == j as usize;
                assert(j <= n);
            }
        }
        false
    }

    /// Moves the head of the cold ring, a resident in test, to the back of the hot ring.
    fn promote_cold_head(&mut self)
        requires
            old(self).inv(),
            old(self).cold@.len() > 0,
        ensures
            final(self).inv(),
            final(self).hot@.len() == old(self).hot@.len() + 1,
            final(self).cold@.len() == old(self).cold@.len() - 1,
            final(self).ghosts@ == old(self).ghosts@,
            final(self).weight_hot + final(self).weight_cold == old(self).weight_hot + old(self).weight_cold,
            final(self).same_budgets(old(self)),
            forall|h: u64, k: Key, v: Ver| #[trigger] final(self).lookup(h, k, v) == old(self).lookup(h, k, v),
    {
        let idx = self.cold[0];
        let ghost s = self.entries@;
        proof {
            assert(s[idx as int].entry is Some);
            lemma_class_weight_update(s, idx as int, with_state(s[idx as int], ResidentState::Hot), true);
            lemma_class_weight_update(s, idx as int, with_state(s[idx as int], ResidentState::Hot), false);
        }
        let w: u64 = match &self.entries[idx].entry {
            Some(Ok(r)) => r.weight,
            _ => 0,
        };
        self.set_state(idx, ResidentState::Hot);
        self.cold.remove(0);
        self.hot.push(idx);
        self.weight_cold = self.weight_cold - w as u128;
        self.weight_hot = self.weight_hot + w as u128;
        proof {
            let s2 = self.entries@;
            assert(agree_except(s, s2, idx as int));
            lemma_ring_leave(old(self).cold@, s, s2, 0, |e| in_cold(e));
            assert(old(self).cold@.remove(0) =~= self.cold@);
            lemma_ring_enter(old(self).hot@, s, s2, idx, |e| in_hot(e));
            lemma_ring_frame(self.ghosts@, s, s2, idx as int, |e| in_ghost(e));
            lemma_index_same_identity(s, index_contents(self.map), idx as int, s2[idx as int]);
            assert(s2 =~= s.update(idx as int, s2[idx as int]));
            assert forall|h: u64, k: Key, v: Ver| #[trigger] self.lookup(h, k, v) == old(self).lookup(h, k, v) by {
                if resident_at(s, idx as int, h, k, v) {
                    lemma_find_in_at(s, idx as int, h, k, v);
                    lemma_find_in_at(s2, idx as int, h, k, v);
                } else {
                    lemma_find_in_frame(s, s2, idx as int, h, k, v);
                }
            }
        }
    }

    /// Gives the demoted resident at the head of the cold ring a new test period and moves
    /// the head on.
    fn retest_cold_head(&mut self)
        requires
            old(self).inv(),
            old(self).cold@.len() > 0,
        ensures
            final(self).inv(),
            final(self).hot@ == old(self).hot@,
            final(self).cold@.len() == old(self).cold@.len(),
            final(self).ghosts@ == old(self).ghosts@,
            final(self).weight_hot == old(self).weight_hot,
            final(self).weight_cold == old(self).weight_cold,
            final(self).same_budgets(old(self)),
            forall|h: u64, k: Key, v: Ver| #[trigger] final(self).lookup(h, k, v) == old(self).lookup(h, k, v),
    {
        let idx = self.cold[0];
        let ghost s = self.entries@;
        proof {
            assert(s[idx as int].entry is Some);
            lemma_class_weight_update(s, idx as int, with_state(s[idx as int], ResidentState::ColdInTest), true);
            lemma_class_weight_update(s, idx as int, with_state(s[idx as int], ResidentState::ColdInTest), false);
        }
        self.set_state(idx, ResidentState::ColdInTest);
        proof {
            let s2 = self.entries@;
            assert(agree_except(s, s2, idx as int));
            lemma_ring_frame(self.hot@, s, s2, idx as int, |e| in_hot(e));
            lemma_ring_frame(self.cold@, s, s2, idx as int, |e| in_cold(e));
            lemma_ring_frame(self.ghosts@, s, s2, idx as int, |e| in_ghost(e));
            lemma_ring_rotate(self.cold@, s2, |e| in_cold(e));
            lemma_index_same_identity(s, index_contents(self.map), idx as int, s2[idx as int]);
            assert(s2 =~= s.update(idx as int, s2[idx as int]));
            assert forall|h: u64, k: Key, v: Ver| #[trigger] self.lookup(h, k, v) == old(self).lookup(h, k, v) by {
                if resident_at(s, idx as int, h, k, v) {
                    lemma_find_in_at(s, idx as int, h, k, v);
                    lemma_find_in_at(s2, idx as int, h, k, v);
                } else {
                    lemma_find_in_frame(s, s2, idx as int, h, k, v);
                }
            }
        }
        let ghost mid = *self;
        ring_rotate(&mut self.cold);
        assert forall|h: u64, k: Key, v: Ver| #[trigger] self.lookup(h, k, v) == old(self).lookup(h, k, v) by {
            assert(mid.lookup(h, k, v) == old(self).lookup(h, k, v));
        }
    }

    /// Evicts the resident at the head of the cold ring. An entry that was in its test
    /// period leaves a ghost behind, unless another slot holds its hash.
    fn evict_cold_head(&mut self) -> (r: Resident<Key, Ver, Val>)
        requires
            old(self).inv(),
            old(self).cold@.len() > 0,
            old(self).cold_head_unreferenced(),
        ensures
            final(self).inv(),
            final(self).hot@ == old(self).hot@,
            final(self).cold@.len() == old(self).cold@.len() - 1,
            final(self).weight_hot == old(self).weight_hot,
            final(self).weight_cold == old(self).weight_cold - r.spec_weight(),
            final(self).same_budgets(old(self)),
            forall|h: u64, k: Key, v: Ver| #[trigger] final(self).lookup(h, k, v) is Some ==> final(self).lookup(h, k, v) == old(self).lookup(h, k, v),
            old(self).held(r),
            !r.spec_referenced(),
            r.spec_state() != ResidentState::Hot,
            final(self).evicted_from(old(self), r),
            r.spec_state() == ResidentState::ColdDemoted || old(self).cold_head_collides() ==> final(self).ghosts@
                == old(self).ghosts@ && final(self).entries@[old(self).cold@[0] as int].entry is None,
            r.spec_state() == ResidentState::ColdInTest && !old(self).cold_head_collides() ==> final(self).ghosts@.len()
                == if old(self).ghosts@.len() + 1 > old(self).capacity_non_resident {
                old(self).ghosts@.len()
            } else {
                old(self).ghosts@.len() + 1
            },
            r.spec_weight() == old(self).entry_weight(&r.spec_key(), &r.spec_version(), &r.spec_value()),
    {
        let idx = self.cold[0];
        let collision = self.search_collision(self.entries[idx].hash, idx);
        let ghost s = self.entries@;
        let slot = replace_slot(&mut self.entries, idx, Slot { entry: None, hash: 0 });
        let Slot { entry, hash } = slot;
        let r = match entry {
            Some(Ok(r)) => r,
            _ => {
                proof {
                    assert(in_cold(s[idx as int].entry));
                }
                vstd::pervasive::unreached()
            },
        };
        proof {
            assert(recorded_ok(s[idx as int], self.weighter));
            assert(!r.referenced);
            assert(in_cold(s[idx as int].entry));
            assert(resident_at(s, idx as int, hash, r.key, r.version));
            lemma_find_in_at(s, idx as int, hash, r.key, r.version);
            assert(old(self).lookup(hash, r.key, r.version) == Some(r.value));
            lemma_class_weight_update(s, idx as int, Slot { entry: Some(Err(hash)), hash }, false);
            lemma_class_weight_update(s, idx as int, Slot { entry: Some(Err(hash)), hash }, true);
            lemma_class_weight_update(s, idx as int, Slot { entry: None, hash: 0 }, false);
            lemma_class_weight_update(s, idx as int, Slot { entry: None, hash: 0 }, true);
        }
        self.weight_cold = self.weight_cold - r.weight as u128;
        if r.state == ResidentState::ColdInTest && !collision {
            replace_slot(&mut self.entries, idx, Slot { entry: Some(Err(hash)), hash });
            self.cold.remove(0);
            self.ghosts.push(idx);
            proof {
                let s2 = self.entries@;
                assert(s2 =~= s.update(idx as int, Slot { entry: Some(Err(hash)), hash }));
                assert(agree_except(s, s2, idx as int));
                lemma_ring_frame(self.hot@, s, s2, idx as int, |e| in_hot(e));
                lemma_ring_leave(old(self).cold@, s, s2, 0, |e| in_cold(e));
                assert(old(self).cold@.remove(0) =~= self.cold@);
                lemma_ring_enter(old(self).ghosts@, s, s2, idx, |e| in_ghost(e));
                assert(self.index_consistent()) by {
                    assert forall|i: int| 0 <= i < s2.len() && (#[trigger] s2[i]).entry is Some implies indexed(index_contents(self.map), s2[i].hash, i as usize) by {
                        assert(s[i].entry is Some);
                    }
                    assert forall|i: int, j: int|
                        0 <= i < s2.len() && 0 <= j < s2.len() && i != j && (#[trigger] s2[i]).entry is Some
                            && (#[trigger] s2[j]).entry is Some && s2[i].hash == s2[j].hash implies distinct_residents(s2[i], s2[j]) by {
                        if i == idx as int {
                            assert(s[j].entry is Some);
                        } else if j == idx as int {
                            assert(s[i].entry is Some);
                        } else {
                            assert(distinct_residents(s[i], s[j]));
                        }
                    }
                }
                assert forall|h: u64, k: Key, v: Ver| #[trigger] self.lookup(h, k, v) is Some implies self.lookup(h, k, v) == old(self).lookup(h, k, v) by {
                    if resident_at(s, idx as int, h, k, v) {
                        let j = choose|j: int| resident_at(s2, j, h, k, v);
                        assert(s2[j] == s[j]);
                        assert(distinct_residents(s[idx as int], s[j]));
                    } else {
                        lemma_find_in_frame(s, s2, idx as int, h, k, v);
                    }
                }
                assert(self.find(hash, r.key, r.version) is None) by {
                    if exists|j: int| resident_at(s2, j, hash, r.key, r.version) {
                        let j = choose|j: int| resident_at(s2, j, hash, r.key, r.version);
                        assert(s2[j] == s[j]);
                        assert(distinct_residents(s[idx as int], s[j]));
                    }
                }
            }
            if self.ghosts.len() > self.capacity_non_resident {
                let ghost before = *self;
                self.advance_ghost();
                assert(self.find(hash, r.key, r.version) == before.find(hash, r.key, r.version));
                assert forall|h: u64, k: Key, v: Ver| #[trigger] self.lookup(h, k, v) is Some implies self.lookup(h, k, v) == old(self).lookup(h, k, v) by {
                    assert(before.lookup(h, k, v) == self.lookup(h, k, v));
                }
            }
        } else {
            index_remove(&mut self.map, hash, idx);
            self.cold.remove(0);
            self.free.push(idx);
            proof {
                let s2 = self.entries@;
                assert(s2 =~= s.update(idx as int, Slot { entry: None, hash: 0 }));
                assert(agree_except(s, s2, idx as int));
                lemma_ring_frame(self.hot@, s, s2, idx as int, |e| in_hot(e));
                lemma_ring_leave(old(self).cold@, s, s2, 0, |e| in_cold(e));
                assert(old(self).cold@.remove(0) =~= self.cold@);
                lemma_ring_frame(self.ghosts@, s, s2, idx as int, |e| in_ghost(e));
                lemma_index_vacate(s, index_contents(old(self).map), index_contents(self.map), idx as int);
                assert(s2 =~= s.update(idx as int, Slot { entry: None, hash: 0 }));
                assert forall|h: u64, k: Key, v: Ver| #[trigger] self.lookup(h, k, v) is Some implies self.lookup(h, k, v) == old(self).lookup(h, k, v) by {
                    if resident_at(s, idx as int, h, k, v) {
                        let j = choose|j: int| resident_at(s2, j, h, k, v);
                        assert(s2[j] == s[j]);
                        assert(distinct_residents(s[idx as int], s[j]));
                    } else {
                        lemma_find_in_frame(s, s2, idx as int, h, k, v);
                    }
                }
                assert(self.find(hash, r.key, r.version) is None) by {
                    if exists|j: int| resident_at(s2, j, hash, r.key, r.version) {
                        let j = choose|j: int| resident_at(s2, j, hash, r.key, r.version);
                        assert(s2[j] == s[j]);
                        assert(distinct_residents(s[idx as int], s[j]));
                    }
                }
            }
        }
        proof {
            assert(old(self).lookup(hash, r.spec_key(), r.spec_version()) == Some(r.spec_value()));
            assert(self.lookup(hash, r.spec_key(), r.spec_version()) is None);
        }
        r
    }

    /// Clock walk on the cold ring: referenced entries in test are promoted to hot (the
    /// hot clock advancing along when hot is over its target), referenced demoted entries
    /// get a new test period, and the first unreferenced entry is evicted.
    fn advance_cold(&mut self) -> (r: Resident<Key, Ver, Val>)
        requires
            old(self).inv(),
            old(self).cold@.len() > 0,
            old(self).weight_hot + old(self).weight_cold > old(self).weight_target_hot,
        ensures
            final(self).inv(),
            final(self).hot@.len() + final(self).cold@.len() == old(self).hot@.len() + old(self).cold@.len() - 1,
            final(self).weight_hot + final(self).weight_cold == old(self).weight_hot + old(self).weight_cold - r.spec_weight(),
            final(self).same_budgets(old(self)),
            forall|h: u64, k: Key, v: Ver| #[trigger] final(self).lookup(h, k, v) is Some ==> final(self).lookup(h, k, v) == old(self).lookup(h, k, v),
            old(self).held(r),
            !r.spec_referenced(),
            r.spec_state() != ResidentState::Hot,
            final(self).evicted_from(old(self), r),
            r.spec_weight() == old(self).entry_weight(&r.spec_key(), &r.spec_version(), &r.spec_value()),
            r.spec_state() == ResidentState::ColdDemoted ==> final(self).ghosts@ == old(self).ghosts@,
            final(self).ghosts@.len() <= old(self).ghosts@.len() + 1,
    {
        let bound: usize = self.cold.len();
        let mut steps: usize = 0;
        loop
            invariant
                self.inv(),
                self.cold@.len() > 0,
                steps <= bound,
                self.ghosts@ == old(self).ghosts@,
                self.hot@.len() + self.cold@.len() == old(self).hot@.len() + old(self).cold@.len(),
                self.weight_hot + self.weight_cold == old(self).weight_hot + old(self).weight_cold,
                self.weight_hot + self.weight_cold > self.weight_target_hot,
                self.same_budgets(old(self)),
                forall|h: u64, k: Key, v: Ver| #[trigger] self.lookup(h, k, v) == old(self).lookup(h, k, v),
            decreases bound - steps,
        {
            let idx = self.cold[0];
            let (referenced, in_test) = match &self.entries[idx].entry {
                Some(Ok(r)) => (r.referenced, r.state == ResidentState::ColdInTest),
                _ => (false, false),
            };
            if referenced && steps < bound {
                let ghost a = *self;
                self.set_referenced(idx, false);
                let ghost b = *self;
                if in_test {
                    self.promote_cold_head();
                    let ghost c = *self;
                    if self.weight_hot > self.weight_target_hot as u128 {
                        self.advance_hot();
                    } else {
                        proof {
                            self.lemma_empty_ring_weight();
                        }
                    }
                    assert forall|h: u64, k: Key, v: Ver| #[trigger] self.lookup(h, k, v) == old(self).lookup(h, k, v) by {
                        assert(a.lookup(h, k, v) == old(self).lookup(h, k, v));
                        assert(b.lookup(h, k, v) == a.lookup(h, k, v));
                        assert(c.lookup(h, k, v) == b.lookup(h, k, v));
                        assert(self.lookup(h, k, v) == c.lookup(h, k, v));
                    }
                } else {
                    self.retest_cold_head();
                    assert forall|h: u64, k: Key, v: Ver| #[trigger] self.lookup(h, k, v) == old(self).lookup(h, k, v) by {
                        assert(a.lookup(h, k, v) == old(self).lookup(h, k, v));
                        assert(b.lookup(h, k, v) == a.lookup(h, k, v));
                        assert(self.lookup(h, k, v) == b.lookup(h, k, v));
                    }
                }
                steps = steps + 1;
            } else {
                break;
            }
        }
        // a full sweep has cleared every bit; should the head still be marked, clear it
        let idx = self.cold[0];
        let marked_head = match &self.entries[idx].entry {
            Some(Ok(r)) => r.referenced,
            _ => false,
        };
        if marked_head {
            let ghost a = *self;
            self.set_referenced(idx, false);
            assert forall|h: u64, k: Key, v: Ver| #[trigger] self.lookup(h, k, v) == old(self).lookup(h, k, v) by {
                assert(a.lookup(h, k, v) == old(self).lookup(h, k, v));
            }
        }
        proof {
            assert(in_cold(self.entries@[self.cold@[0] as int].entry));
        }
        let ghost before = *self;
        let r = self.evict_cold_head();
        assert forall|h: u64, k: Key, v: Ver| #[trigger] self.lookup(h, k, v) is Some implies self.lookup(h, k, v) == old(self).lookup(h, k, v) by {
            assert(before.lookup(h, k, v) == old(self).lookup(h, k, v));
        }
        proof {
            let h = choose|h: u64|
                #[trigger] before.lookup(h, r.spec_key(), r.spec_version()) == Some(r.spec_value())
                    && self.lookup(h, r.spec_key(), r.spec_version()) is None;
            assert(old(self).lookup(h, r.spec_key(), r.spec_version()) == Some(r.spec_value()));
        }
        proof {
            let h = choose|h: u64| #[trigger] before.lookup(h, r.spec_key(), r.spec_version()) == Some(r.spec_value());
            assert(old(self).lookup(h, r.spec_key(), r.spec_version()) == Some(r.spec_value()));
        }
        r
    }

    /// Evicts one resident: first demotes hot entries while hot is over its target or
    /// the cold ring is empty, then walks the cold ring.
    fn evict(&mut self) -> (r: Resident<Key, Ver, Val>)
        requires
            old(self).inv(),
            old(self).weight_hot + old(self).weight_cold > old(self).weight_target_hot,
        ensures
            final(self).inv(),
            final(self).hot@.len() + final(self).cold@.len() == old(self).hot@.len() + old(self).cold@.len() - 1,
            final(self).weight_hot + final(self).weight_cold == old(self).weight_hot + old(self).weight_cold - r.spec_weight(),
            final(self).same_budgets(old(self)),
            forall|h: u64, k: Key, v: Ver| #[trigger] final(self).lookup(h, k, v) is Some ==> final(self).lookup(h, k, v) == old(self).lookup(h, k, v),
            old(self).held(r),
            !r.spec_referenced(),
            r.spec_state() != ResidentState::Hot,
            final(self).evicted_from(old(self), r),
            r.spec_weight() == old(self).entry_weight(&r.spec_key(), &r.spec_version(), &r.spec_value()),
    {
        while self.weight_hot > self.weight_target_hot as u128 || self.cold.len() == 0
            invariant
                self.inv(),
                self.hot@.len() + self.cold@.len() == old(self).hot@.len() + old(self).cold@.len(),
                self.weight_hot + self.weight_cold == old(self).weight_hot + old(self).weight_cold,
                self.weight_hot + self.weight_cold > self.weight_target_hot,
                self.same_budgets(old(self)),
                forall|h: u64, k: Key, v: Ver| #[trigger] self.lookup(h, k, v) == old(self).lookup(h, k, v),
            decreases self.hot@.len(),
        {
            proof {
                self.lemma_empty_ring_weight();
            }
            let ghost before = *self;
            self.advance_hot();
            assert forall|h: u64, k: Key, v: Ver| #[trigger] self.lookup(h, k, v) == old(self).lookup(h, k, v) by {
                assert(before.lookup(h, k, v) == old(self).lookup(h, k, v));
            }
        }
        let ghost before = *self;
        let r = self.advance_cold();
        assert forall|h: u64, k: Key, v: Ver| #[trigger] self.lookup(h, k, v) is Some implies self.lookup(h, k, v) == old(self).lookup(h, k, v) by {
            assert(before.lookup(h, k, v) == old(self).lookup(h, k, v));
        }
        proof {
            let h = choose|h: u64|
                #[trigger] before.lookup(h, r.spec_key(), r.spec_version()) == Some(r.spec_value())
                    && self.lookup(h, r.spec_key(), r.spec_version()) is None;
            assert(old(self).lookup(h, r.spec_key(), r.spec_version()) == Some(r.spec_value()));
        }
        proof {
            let h = choose|h: u64| #[trigger] before.lookup(h, r.spec_key(), r.spec_version()) == Some(r.spec_value());
            assert(old(self).lookup(h, r.spec_key(), r.spec_version()) == Some(r.spec_value()));
        }
        r
    }

    /// Replaces the resident in slot `idx`, which has this key and version, keeping its
    /// state and marking it referenced. Hands back the replaced resident.
    fn update_in_place(&mut self, idx: usize, key: Key, version: Ver, value: Val, w: u64) -> (r: Resident<Key, Ver, Val>)
        requires
            w == old(self).weighter.spec_weight(&key, &version, &value) as u64,
            old(self).wf(),
            idx < old(self).entries@.len(),
            resident_is(old(self).entries@[idx as int], key, version),
            w <= old(self).weight_capacity - old(self).weight_target_hot,
        ensures
            final(self).inv(),
            final(self).hot@ == old(self).hot@,
            final(self).cold@ == old(self).cold@,
            final(self).ghosts@ == old(self).ghosts@,
            final(self).weight_hot + final(self).weight_cold == old(self).weight_hot + old(self).weight_cold - r.weight + w,
            final(self).same_budgets(old(self)),
            old(self).entries@[idx as int].entry == Some(Ok::<Resident<Key, Ver, Val>, u64>(r)),
            final(self).find(old(self).entries@[idx as int].hash, key, version) == Some(Resident {
                key,
                version,
                value,
                state: r.state,
                referenced: true,
                weight: w,
            }),
            forall|h: u64, k: Key, v: Ver|
                !resident_at(old(self).entries@, idx as int, h, k, v) ==> #[trigger] final(self).lookup(h, k, v) == old(self).lookup(h, k, v),
            final(self).no_new_ghosts(old(self)),
    {
        let ghost s = self.entries@;
        let slot = replace_slot(&mut self.entries, idx, Slot { entry: None, hash: 0 });
        let Slot { entry, hash } = slot;
        let old_r = match entry {
            Some(Ok(r)) => r,
            _ => vstd::pervasive::unreached(),
        };
        let state = old_r.state;
        let new_slot = Slot {
            entry: Some(Ok(Resident { key, version, value, state, referenced: true, weight: w })),
            hash,
        };
        proof {
            lemma_class_weight_update(s, idx as int, new_slot, true);
            lemma_class_weight_update(s, idx as int, new_slot, false);
        }
        if state == ResidentState::Hot {
            self.weight_hot = self.weight_hot - old_r.weight as u128 + w as u128;
        } else {
            self.weight_cold = self.weight_cold - old_r.weight as u128 + w as u128;
        }
        replace_slot(&mut self.entries, idx, new_slot);
        proof {
            let s2 = self.entries@;
            assert(s2 =~= s.update(idx as int, new_slot));
            assert(agree_except(s, s2, idx as int));
            lemma_ring_frame(self.hot@, s, s2, idx as int, |e| in_hot(e));
            lemma_ring_frame(self.cold@, s, s2, idx as int, |e| in_cold(e));
            lemma_ring_frame(self.ghosts@, s, s2, idx as int, |e| in_ghost(e));
            lemma_index_same_identity(s, index_contents(self.map), idx as int, s2[idx as int]);
            assert(s2 =~= s.update(idx as int, s2[idx as int]));
            assert(resident_at(s2, idx as int, hash, key, version));
            lemma_find_in_at(s2, idx as int, hash, key, version);
            assert forall|h: u64, k: Key, v: Ver|
                !resident_at(s, idx as int, h, k, v) implies #[trigger] self.lookup(h, k, v) == old(self).lookup(h, k, v) by {
                lemma_find_in_frame(s, s2, idx as int, h, k, v);
            }
        }
        old_r
    }

    /// Turns the ghost in slot `idx` back into a resident, entering the hot ring.
    fn resurrect(&mut self, idx: usize, hash: u64, key: Key, version: Ver, value: Val, w: u64)
        requires
            w == old(self).weighter.spec_weight(&key, &version, &value) as u64,
            old(self).wf(),
            idx < old(self).entries@.len(),
            old(self).entries@[idx as int].entry == Some(Err::<Resident<Key, Ver, Val>, u64>(hash)),
            w <= old(self).weight_capacity - old(self).weight_target_hot,
        ensures
            final(self).inv(),
            final(self).hot@.len() == old(self).hot@.len() + 1,
            final(self).cold@ == old(self).cold@,
            final(self).ghosts@.len() == old(self).ghosts@.len() - 1,
            final(self).weight_hot == old(self).weight_hot + w,
            final(self).weight_cold == old(self).weight_cold,
            final(self).same_budgets(old(self)),
            final(self).find(hash, key, version) == Some(Resident {
                key,
                version,
                value,
                state: ResidentState::Hot,
                referenced: false,
                weight: w,
            }),
            forall|h: u64, k: Key, v: Ver|
                !(h == hash && k == key && v == version) ==> #[trigger] final(self).lookup(h, k, v) == old(self).lookup(h, k, v),
            final(self).no_new_ghosts(old(self)),
    {
        let ghost s = self.entries@;
        let new_slot = Slot {
            entry: Some(Ok(Resident { key, version, value, state: ResidentState::Hot, referenced: false, weight: w })),
            hash,
        };
        proof {
            lemma_class_weight_update(s, idx as int, new_slot, true);
            lemma_class_weight_update(s, idx as int, new_slot, false);
            assert(ghost_hash_ok(s[idx as int]));
        }
        replace_slot(&mut self.entries, idx, new_slot);
        proof {
            assert(self.ghosts@.contains(idx)) by {
                assert(in_ghost(s[idx as int].entry));
            }
        }
        let p = ring_remove(&mut self.ghosts, idx);
        self.hot.push(idx);
        self.weight_hot = self.weight_hot + w as u128;
        proof {
            let s2 = self.entries@;
            assert(agree_except(s, s2, idx as int));
            lemma_ring_leave(old(self).ghosts@, s, s2, p as int, |e| in_ghost(e));
            lemma_ring_enter(old(self).hot@, s, s2, idx, |e| in_hot(e));
            lemma_ring_frame(self.cold@, s, s2, idx as int, |e| in_cold(e));
            assert(self.index_consistent()) by {
                assert forall|i: int| 0 <= i < s2.len() && (#[trigger] s2[i]).entry is Some implies indexed(index_contents(self.map), s2[i].hash, i as usize) by {
                    assert(s[i].entry is Some);
                }
                assert forall|i: int, j: int|
                    0 <= i < s2.len() && 0 <= j < s2.len() && i != j && (#[trigger] s2[i]).entry is Some
                        && (#[trigger] s2[j]).entry is Some && s2[i].hash == s2[j].hash implies distinct_residents(s2[i], s2[j]) by {
                    assert(s[i].entry is Some);
                    assert(s[j].entry is Some);
                    assert(distinct_residents(s[i], s[j]));
                }
            }
            assert(resident_at(s2, idx as int, hash, key, version));
            lemma_find_in_at(s2, idx as int, hash, key, version);
            assert forall|h: u64, k: Key, v: Ver|
                !(h == hash && k == key && v == version) implies #[trigger] self.lookup(h, k, v) == old(self).lookup(h, k, v) by {
                lemma_find_in_frame(s, s2, idx as int, h, k, v);
            }
        }
    }

    /// The weight that the weighter gives the entry.
    pub open spec fn entry_weight(&self, key: &Key, version: &Ver, value: &Val) -> u64 {
        self.spec_weighter().spec_weight(key, version, value) as u64
    }

    /// The entry fits the cold budget (capacity minus hot target).
    pub open spec fn admits(&self, key: &Key, version: &Ver, value: &Val) -> bool {
        self.entry_weight(key, version, value) <= self.spec_capacity() - self.spec_target_hot()
    }

    /// No slot answers a lookup of (hash, key, version): no such resident, no ghost of
    /// that hash.
    pub open spec fn is_new(&self, hash: u64, key: Key, version: Ver) -> bool {
        self.find(hash, key, version) is None && !self.has_ghost(hash)
    }

    /// The total weight after `(hash, key, version)` is stored with weight `w`, before
    /// any eviction.
    pub open spec fn weight_after(&self, hash: u64, key: Key, version: Ver, w: u64) -> int {
        match self.find(hash, key, version) {
            Some(r) => self.spec_weight_hot() + self.spec_weight_cold() - r.spec_weight() + w,
            None => self.spec_weight_hot() + self.spec_weight_cold() + w,
        }
    }

    /// Stores the value in slot `idx`, which answers the lookup: a resident is replaced in
    /// place, a ghost comes back as a hot resident. Then evicts while over capacity.
    fn insert_existing(&mut self, idx: usize, hash: u64, key: Key, version: Ver, value: Val, w: u64) -> (r: Option<Resident<Key, Ver, Val>>)
        requires
            w == old(self).weighter.spec_weight(&key, &version, &value) as u64,
            old(self).wf(),
            idx < old(self).entries@.len(),
            answers(old(self).entries@[idx as int], hash, key, version),
            w <= old(self).weight_capacity - old(self).weight_target_hot,
        ensures
            final(self).wf(),
            final(self).same_budgets(old(self)),
            forall|h: u64, k: Key, v: Ver|
                !(h == hash && k == key && v == version) && #[trigger] final(self).lookup(h, k, v) is Some
                    ==> final(self).lookup(h, k, v) == old(self).lookup(h, k, v),
            final(self).lookup(hash, key, version) is Some ==> final(self).lookup(hash, key, version) == Some(value),
            old(self).weight_after(hash, key, version, w) <= old(self).spec_capacity()
                ==> final(self).lookup(hash, key, version) == Some(value),
            old(self).weight_after(hash, key, version, w) <= old(self).spec_capacity() && old(self).find(hash, key, version) is Some
                ==> final(self).find(hash, key, version).unwrap().spec_referenced(),
            old(self).weight_after(hash, key, version, w) <= old(self).spec_capacity()
                ==> r == old(self).find(hash, key, version),
            old(self).weight_after(hash, key, version, w) <= old(self).spec_capacity()
                ==> final(self).spec_weight_hot() + final(self).spec_weight_cold() == old(self).weight_after(hash, key, version, w)
                && final(self).find(hash, key, version).unwrap().spec_weight() == w,
            r matches Some(e) ==> old(self).held(e) || (e.spec_key() == key && e.spec_version() == version
                && e.spec_value() == value),
            old(self).weight_after(hash, key, version, w) <= old(self).spec_capacity() ==> final(self).num_hot()
                + final(self).num_cold() == old(self).num_hot() + old(self).num_cold() + if old(self).find(
                hash,
                key,
                version,
            ) is Some {
                0int
            } else {
                1int
            },
            old(self).weight_after(hash, key, version, w) <= old(self).spec_capacity() && old(self).find(hash, key, version) is Some
                ==> final(self).find(hash, key, version).unwrap().spec_state() == old(self).find(hash, key, version).unwrap().spec_state(),
            old(self).weight_after(hash, key, version, w) <= old(self).spec_capacity() && old(self).find(hash, key, version) is None
                ==> final(self).find(hash, key, version).unwrap().spec_state() == ResidentState::Hot
                && !final(self).find(hash, key, version).unwrap().spec_referenced(),
            old(self).weight_after(hash, key, version, w) <= old(self).spec_capacity() ==> forall|h: u64, k: Key, v: Ver|
                !(h == hash && k == key && v == version) ==> #[trigger] final(self).lookup(h, k, v) == old(self).lookup(h, k, v),
            match r {
                Some(e) => !(e.spec_key() == key && e.spec_version() == version) ==> final(self).evicted_from(old(self), e)
                    && !e.spec_referenced() && e.spec_state() != ResidentState::Hot,
                None => true,
            },
            old(self).weight_after(hash, key, version, w) <= old(self).spec_capacity() ==> final(self).no_new_ghosts(old(self)),
            r matches Some(e) ==> e.spec_weight() == old(self).entry_weight(&e.spec_key(), &e.spec_version(), &e.spec_value()),
            old(self).weight_after(hash, key, version, w) <= old(self).spec_capacity() && old(self).find(hash, key, version) is None
                ==> final(self).num_ghost() == old(self).num_ghost() - 1 && final(self).num_hot() == old(self).num_hot() + 1
                && final(self).num_cold() == old(self).num_cold() && final(self).spec_weight_hot() == old(self).spec_weight_hot() + w
                && final(self).spec_weight_cold() == old(self).spec_weight_cold(),
            old(self).weight_after(hash, key, version, w) > old(self).spec_capacity() ==> r is Some,
    {
        let mut evicted: Option<Resident<Key, Ver, Val>>;
        let is_resident = match &self.entries[idx].entry {
            Some(Ok(_)) => true,
            _ => false,
        };
        if is_resident {
            proof {
                old(self).lemma_find_at(idx as int, hash, key, version);
            }
            let r = self.update_in_place(idx, key, version, value, w);
            proof {
                assert(old(self).lookup(hash, r.key, r.version) == Some(r.value));
                assert(recorded_ok(old(self).entries@[idx as int], old(self).weighter));
            }
            evicted = Some(r);
            assert forall|h: u64, k: Key, v: Ver|
                !(h == hash && k == key && v == version) implies #[trigger] self.lookup(h, k, v) == old(self).lookup(h, k, v) by {
                assert(!resident_at(old(self).entries@, idx as int, h, k, v));
            }
        } else {
            proof {
                old(self).lemma_search_find(Some(idx), hash, key, version);
                assert(ghost_hash_ok(old(self).entries@[idx as int]));
            }
            self.resurrect(idx, hash, key, version, value, w);
            evicted = None;
        }
        let ghost start = *self;
        assert(start.weight_hot + start.weight_cold == old(self).weight_after(hash, key, version, w));
        assert(old(self).find(hash, key, version) is Some ==> start.find(hash, key, version).unwrap().spec_referenced());
        assert(start.find(hash, key, version).unwrap().spec_weight() == w);
        while self.weight_hot + self.weight_cold > self.weight_capacity as u128
            invariant
                self.inv(),
                self.same_budgets(old(self)),
                forall|h: u64, k: Key, v: Ver|
                    !(h == hash && k == key && v == version) && #[trigger] self.lookup(h, k, v) is Some
                        ==> self.lookup(h, k, v) == old(self).lookup(h, k, v),
                self.lookup(hash, key, version) is Some ==> self.lookup(hash, key, version) == Some(value),
                start.lookup(hash, key, version) == Some(value),
                start.weight_hot + start.weight_cold <= self.weight_capacity ==> *self == start,
                *self == start || evicted is Some,
                start.weight_hot + start.weight_cold <= self.weight_capacity ==> evicted == old(self).find(hash, key, version),
                evicted matches Some(e) ==> old(self).held(e) || (e.spec_key() == key && e.spec_version() == version
                    && e.spec_value() == value),
                evicted matches Some(e) ==> e.spec_weight() == old(self).entry_weight(&e.spec_key(), &e.spec_version(), &e.spec_value()),
                match evicted {
                    Some(e) => !(e.spec_key() == key && e.spec_version() == version) ==> self.evicted_from(old(self), e)
                        && !e.spec_referenced() && e.spec_state() != ResidentState::Hot,
                    None => true,
                },
            decreases self.hot@.len() + self.cold@.len(),
        {
            let ghost before = *self;
            let e = self.evict();
            assert forall|h: u64, k: Key, v: Ver| #[trigger] self.lookup(h, k, v) is Some implies self.lookup(h, k, v) == before.lookup(h, k, v) by {}
            proof {
                let h = choose|h: u64| #[trigger] before.lookup(h, e.spec_key(), e.spec_version()) == Some(e.spec_value());
                if !(h == hash && e.spec_key() == key && e.spec_version() == version) {
                    assert(old(self).lookup(h, e.spec_key(), e.spec_version()) == Some(e.spec_value()));
                }
                let h2 = choose|h2: u64|
                    #[trigger] before.lookup(h2, e.spec_key(), e.spec_version()) == Some(e.spec_value())
                        && self.lookup(h2, e.spec_key(), e.spec_version()) is None;
                if !(e.spec_key() == key && e.spec_version() == version) {
                    assert(old(self).lookup(h2, e.spec_key(), e.spec_version()) == Some(e.spec_value()));
                }
            }
            evicted = Some(e);
        }
        evicted
    }

    /// Stores a new resident in a free slot, or in a new one, and links it into the hot
    /// ring (`enter_hot`) or the cold ring, in test.
    fn admit_new(&mut self, hash: u64, key: Key, version: Ver, value: Val, w: u64, enter_hot: bool)
        requires
            w == old(self).weighter.spec_weight(&key, &version, &value) as u64,
            old(self).inv(),
            old(self).entries@.len() < usize::MAX,
            forall|i: int| 0 <= i < old(self).entries@.len() ==> !answers(#[trigger] old(self).entries@[i], hash, key, version),
            old(self).weight_hot + old(self).weight_cold + w <= old(self).weight_capacity,
        ensures
            final(self).wf(),
            final(self).weight_target_hot == old(self).weight_target_hot,
            final(self).weight_capacity == old(self).weight_capacity,
            final(self).hits == old(self).hits,
            final(self).misses == old(self).misses,
            final(self).weighter == old(self).weighter,
            final(self).weight_hot + final(self).weight_cold == old(self).weight_hot + old(self).weight_cold + w,
            final(self).lookup(hash, key, version) == Some(value),
            final(self).find(hash, key, version).unwrap().spec_weight() == w,
            final(self).find(hash, key, version).unwrap().spec_state() == if enter_hot {
                ResidentState::Hot
            } else {
                ResidentState::ColdInTest
            },
            !final(self).find(hash, key, version).unwrap().spec_referenced(),
            final(self).num_hot() + final(self).num_cold() == old(self).num_hot() + old(self).num_cold() + 1,
            final(self).slab_len() <= old(self).slab_len() + 1,
            final(self).capacity_non_resident == old(self).capacity_non_resident,
            final(self).ghost_budget_set == old(self).ghost_budget_set,
            forall|h: u64, k: Key, v: Ver|
                !(h == hash && k == key && v == version) ==> #[trigger] final(self).lookup(h, k, v) == old(self).lookup(h, k, v),
            final(self).no_new_ghosts(old(self)),
    {
        let ghost s = self.entries@;
        let state = if enter_hot { ResidentState::Hot } else { ResidentState::ColdInTest };
        let new_slot = Slot {
            entry: Some(Ok(Resident { key, version, value, state, referenced: false, weight: w })),
            hash,
        };
        let n: usize = self.entries.len();
        let mut idx: usize = n;
        if let Some(f) = self.free.pop() {
            if f < n && self.entries[f].entry.is_none() {
                idx = f;
            }
        }
        if idx < n {
            proof {
                lemma_class_weight_update(s, idx as int, new_slot, true);
                lemma_class_weight_update(s, idx as int, new_slot, false);
            }
            replace_slot(&mut self.entries, idx, new_slot);
        } else {
            proof {
                lemma_class_weight_push(s, new_slot, true);
                lemma_class_weight_push(s, new_slot, false);
            }
            self.entries.push(new_slot);
        }
        if enter_hot {
            self.hot.push(idx);
            self.weight_hot = self.weight_hot + w as u128;
        } else {
            self.cold.push(idx);
            self.weight_cold = self.weight_cold + w as u128;
        }
        index_add(&mut self.map, hash, idx);
        proof {
            let s2 = self.entries@;
            if idx < n {
                assert(s2 =~= s.update(idx as int, new_slot));
            } else {
                assert(s2 =~= s.push(new_slot));
            }
            assert(agree_except(s, s2, idx as int));
            if enter_hot {
                lemma_ring_enter(old(self).hot@, s, s2, idx, |e| in_hot(e));
                lemma_ring_frame(self.cold@, s, s2, idx as int, |e| in_cold(e));
            } else {
                lemma_ring_enter(old(self).cold@, s, s2, idx, |e| in_cold(e));
                lemma_ring_frame(self.hot@, s, s2, idx as int, |e| in_hot(e));
            }
            lemma_ring_frame(self.ghosts@, s, s2, idx as int, |e| in_ghost(e));
            assert(self.index_consistent()) by {
                assert forall|i: int| 0 <= i < s2.len() && (#[trigger] s2[i]).entry is Some implies indexed(index_contents(self.map), s2[i].hash, i as usize) by {
                    if i != idx as int {
                        assert(s[i].entry is Some);
                        assert(indexed(index_contents(old(self).map), s[i].hash, i as usize));
                    }
                }
                assert forall|i: int, j: int|
                    0 <= i < s2.len() && 0 <= j < s2.len() && i != j && (#[trigger] s2[i]).entry is Some
                        && (#[trigger] s2[j]).entry is Some && s2[i].hash == s2[j].hash implies distinct_residents(s2[i], s2[j]) by {
                    if i == idx as int {
                        assert(!answers(s[j], hash, key, version));
                    } else if j == idx as int {
                        assert(!answers(s[i], hash, key, version));
                    } else {
                        assert(distinct_residents(s[i], s[j]));
                    }
                }
            }
            assert(resident_at(s2, idx as int, hash, key, version));
            lemma_find_in_at(s2, idx as int, hash, key, version);
            assert forall|h: u64, k: Key, v: Ver|
                !(h == hash && k == key && v == version) implies #[trigger] self.lookup(h, k, v) == old(self).lookup(h, k, v) by {
                lemma_find_in_frame(s, s2, idx as int, h, k, v);
            }
        }
    }

    /// Inserts or replaces the value of (key, version), whose hash is `hash`.
    ///
    /// An entry heavier than the cold budget (capacity minus hot target) is not admitted
    /// and nothing changes; so too when the slab cannot take another slot. A present
    /// resident is replaced in place, keeps its state, is marked referenced, and is handed
    /// back. A ghost with this hash comes back as a hot resident. A new entry is admitted
    /// after evicting as much as it needs, hot while the hot target allows and cold (in
    /// test) otherwise. The last resident evicted is handed back.
    pub fn insert(&mut self, hash: u64, key: Key, version: Ver, value: Val) -> (r: Option<Resident<Key, Ver, Val>>)
        requires
            old(self).wf(),
        ensures
            final(self).wf(),
            final(self).spec_capacity() == old(self).spec_capacity(),
            final(self).spec_target_hot() == old(self).spec_target_hot(),
            final(self).spec_hits() == old(self).spec_hits(),
            final(self).spec_misses() == old(self).spec_misses(),
            final(self).spec_weighter() == old(self).spec_weighter(),
            old(self).spec_weighter().spec_weight(&key, &version, &value) > old(self).spec_capacity()
                - old(self).spec_target_hot() ==> r is None && final(self).same_state(old(self)),
            old(self).find(hash, key, version) is None && !old(self).has_ghost(hash) && old(self).slab_full()
                ==> r is None && final(self).same_state(old(self)),
            forall|h: u64, k: Key, v: Ver|
                !(h == hash && k == key && v == version) && #[trigger] final(self).lookup(h, k, v) is Some
                    ==> final(self).lookup(h, k, v) == old(self).lookup(h, k, v),
            old(self).spec_weighter().spec_weight(&key, &version, &value) <= old(self).spec_capacity()
                - old(self).spec_target_hot() && final(self).lookup(hash, key, version) is Some
                ==> final(self).lookup(hash, key, version) == Some(value),
            old(self).spec_weighter().spec_weight(&key, &version, &value) <= old(self).spec_capacity()
                - old(self).spec_target_hot() && old(self).find(hash, key, version) is None
                && !old(self).has_ghost(hash) && !old(self).slab_full()
                ==> final(self).lookup(hash, key, version) == Some(value),
            old(self).spec_weighter().spec_weight(&key, &version, &value) <= old(self).spec_capacity()
                - old(self).spec_target_hot() && (old(self).find(hash, key, version) is Some || old(self).has_ghost(hash))
                && old(self).weight_after(
                hash,
                key,
                version,
                old(self).spec_weighter().spec_weight(&key, &version, &value) as u64,
            ) <= old(self).spec_capacity() ==> final(self).lookup(hash, key, version) == Some(value),
            old(self).spec_weighter().spec_weight(&key, &version, &value) <= old(self).spec_capacity()
                - old(self).spec_target_hot() && old(self).find(hash, key, version) is Some && old(self).weight_after(
                hash,
                key,
                version,
                old(self).spec_weighter().spec_weight(&key, &version, &value) as u64,
            ) <= old(self).spec_capacity() ==> final(self).find(hash, key, version).unwrap().spec_referenced()
                && r == old(self).find(hash, key, version),
            old(self).spec_weighter().spec_weight(&key, &version, &value) <= old(self).spec_capacity()
                - old(self).spec_target_hot() && old(self).find(hash, key, version) is None
                && !old(self).has_ghost(hash) && !old(self).slab_full()
                ==> (r is None <==> old(self).weight_after(
                hash,
                key,
                version,
                old(self).spec_weighter().spec_weight(&key, &version, &value) as u64,
            ) <= old(self).spec_capacity()),
            old(self).spec_weighter().spec_weight(&key, &version, &value) <= old(self).spec_capacity()
                - old(self).spec_target_hot()
                && !(old(self).find(hash, key, version) is None && !old(self).has_ghost(hash) && old(self).slab_full())
                && old(self).weight_after(
                hash,
                key,
                version,
                old(self).spec_weighter().spec_weight(&key, &version, &value) as u64,
            ) <= old(self).spec_capacity() ==> final(self).spec_weight_hot() + final(self).spec_weight_cold()
                == old(self).weight_after(
                hash,
                key,
                version,
                old(self).spec_weighter().spec_weight(&key, &version, &value) as u64,
            ) && final(self).find(hash, key, version).unwrap().spec_weight()
                == old(self).spec_weighter().spec_weight(&key, &version, &value) as u64,
            r matches Some(e) ==> old(self).held(e) || (e.spec_key() == key && e.spec_version() == version
                && e.spec_value() == value),
            match r {
                Some(e) => !(e.spec_key() == key && e.spec_version() == version) ==> final(self).evicted_from(old(self), e)
                    && !e.spec_referenced() && e.spec_state() != ResidentState::Hot,
                None => true,
            },
            old(self).ghost_budget_fixed() ==> final(self).ghost_budget_fixed() && final(self).ghost_budget()
                == old(self).ghost_budget(),
            final(self).slab_len() <= old(self).slab_len() + 1,
            old(self).admits(&key, &version, &value) && !(old(self).is_new(hash, key, version) && old(self).slab_full())
                && old(self).weight_after(hash, key, version, old(self).entry_weight(&key, &version, &value))
                <= old(self).spec_capacity() ==> forall|h: u64, k: Key, v: Ver|
                !(h == hash && k == key && v == version) ==> #[trigger] final(self).lookup(h, k, v) == old(self).lookup(h, k, v),
            old(self).admits(&key, &version, &value) && old(self).find(hash, key, version) is Some && old(self).weight_after(
                hash,
                key,
                version,
                old(self).entry_weight(&key, &version, &value),
            ) <= old(self).spec_capacity() ==> final(self).find(hash, key, version).unwrap().spec_state() == old(self).find(
                hash,
                key,
                version,
            ).unwrap().spec_state() && final(self).num_hot() + final(self).num_cold() == old(self).num_hot()
                + old(self).num_cold(),
            old(self).admits(&key, &version, &value) && old(self).find(hash, key, version) is None && old(self).has_ghost(hash)
                && old(self).weight_after(hash, key, version, old(self).entry_weight(&key, &version, &value))
                <= old(self).spec_capacity() ==> final(self).find(hash, key, version).unwrap().spec_state() == ResidentState::Hot
                && !final(self).find(hash, key, version).unwrap().spec_referenced() && final(self).num_hot()
                + final(self).num_cold() == old(self).num_hot() + old(self).num_cold() + 1,
            old(self).admits(&key, &version, &value) && old(self).is_new(hash, key, version) && !old(self).slab_full()
                ==> final(self).find(hash, key, version).unwrap().spec_state() == if old(self).spec_weight_hot()
                + old(self).spec_weight_cold() + old(self).entry_weight(&key, &version, &value) <= old(self).spec_capacity()
                && old(self).spec_weight_hot() + old(self).entry_weight(&key, &version, &value) <= old(self).spec_target_hot() {
                ResidentState::Hot
            } else {
                ResidentState::ColdInTest
            } && !final(self).find(hash, key, version).unwrap().spec_referenced(),
            old(self).admits(&key, &version, &value) && old(self).is_new(hash, key, version) && !old(self).slab_full()
                && old(self).spec_weight_hot() + old(self).spec_weight_cold() + old(self).entry_weight(&key, &version, &value)
                <= old(self).spec_capacity() ==> final(self).num_hot() + final(self).num_cold() == old(self).num_hot()
                + old(self).num_cold() + 1,
            old(self).weight_after(hash, key, version, old(self).entry_weight(&key, &version, &value)) <= old(self).spec_capacity() ==> final(self).no_new_ghosts(old(self)),
            r matches Some(e) ==> e.spec_weight() == old(self).entry_weight(&e.spec_key(), &e.spec_version(), &e.spec_value()),
            old(self).admits(&key, &version, &value) && (old(self).find(hash, key, version) is Some || old(self).has_ghost(hash))
                && old(self).weight_after(hash, key, version, old(self).entry_weight(&key, &version, &value))
                > old(self).spec_capacity() ==> r is Some,
            old(self).admits(&key, &version, &value) && old(self).find(hash, key, version) is None && old(self).has_ghost(hash)
                && old(self).weight_after(hash, key, version, old(self).entry_weight(&key, &version, &value))
                <= old(self).spec_capacity() ==> final(self).num_ghost() == old(self).num_ghost() - 1
                && final(self).spec_weight_hot() == old(self).spec_weight_hot() + old(self).entry_weight(&key, &version, &value),
    {
        let w: u64 = self.weighter.weight(&key, &version, &value) as u64;
        if w > self.weight_capacity - self.weight_target_hot {
            return None;
        }
        let found = self.search(hash, &key, &version);
        proof {
            self.lemma_search_find(found, hash, key, version);
        }
        if let Some(idx) = found {
            proof {
                if self.entries@[idx as int].entry matches Some(Err(_)) {
                    assert(ghost_hash_ok(self.entries@[idx as int]));
                    assert(self.has_ghost(hash));
                }
            }
            return self.insert_existing(idx, hash, key, version, value, w);
        }
        assert(!self.has_ghost(hash)) by {
            if self.has_ghost(hash) {
                let i = choose|i: int| 0 <= i < self.entries@.len() && (#[trigger] self.entries@[i]).entry == Some(Err::<Resident<Key, Ver, Val>, u64>(hash));
                assert(ghost_hash_ok(self.entries@[i]));
                assert(answers(self.entries@[i], hash, key, version));
            }
        }
        if self.entries.len() == usize::MAX {
            return None;
        }
        let mut evicted: Option<Resident<Key, Ver, Val>> = None;
        let enter_hot: bool;
        if w as u128 > self.weight_capacity as u128 - (self.weight_hot + self.weight_cold) {
            loop
                invariant_except_break
                    self.weight_hot + self.weight_cold + w > self.weight_capacity,
                invariant
                    self.inv(),
                    self.same_budgets(old(self)),
                    self.weight_hot + self.weight_cold <= 2 * self.weight_capacity,
                    w <= self.weight_capacity - self.weight_target_hot,
                    self.entries@.len() < usize::MAX,
                    forall|h: u64, k: Key, v: Ver| #[trigger] self.lookup(h, k, v) is Some ==> self.lookup(h, k, v) == old(self).lookup(h, k, v),
                    old(self).lookup(hash, key, version) is None,
                    evicted matches Some(e) ==> old(self).held(e),
                    evicted matches Some(e) ==> e.spec_weight() == old(self).entry_weight(&e.spec_key(), &e.spec_version(), &e.spec_value()),
                    evicted matches Some(e) ==> self.evicted_from(old(self), e),
                    evicted matches Some(e) ==> !e.spec_referenced() && e.spec_state() != ResidentState::Hot,
                ensures
                    self.weight_hot + self.weight_cold + w <= self.weight_capacity,
                    evicted is Some,
                decreases self.hot@.len() + self.cold@.len(),
            {
                let ghost before = *self;
                let e = self.evict();
                assert forall|h: u64, k: Key, v: Ver| #[trigger] self.lookup(h, k, v) is Some implies self.lookup(h, k, v) == old(self).lookup(h, k, v) by {
                    assert(self.lookup(h, k, v) == before.lookup(h, k, v));
                }
                proof {
                    let h = choose|h: u64| #[trigger] before.lookup(h, e.spec_key(), e.spec_version()) == Some(e.spec_value());
                    assert(old(self).lookup(h, e.spec_key(), e.spec_version()) == Some(e.spec_value()));
                    let h2 = choose|h2: u64|
                        #[trigger] before.lookup(h2, e.spec_key(), e.spec_version()) == Some(e.spec_value())
                            && self.lookup(h2, e.spec_key(), e.spec_version()) is None;
                    assert(old(self).lookup(h2, e.spec_key(), e.spec_version()) == Some(e.spec_value()));
                }
                evicted = Some(e);
                if self.weight_hot + self.weight_cold <= (self.weight_capacity - w) as u128 {
                    break;
                }
            }
            enter_hot = false;
            // an eviction may have left a ghost under this hash: drop it, so that the
            // new entry is the only slot under its hash
            let ghost before_rm = *self;
            let gone = self.remove(hash, &key, &version);
            proof {
                assert(before_rm.lookup(hash, key, version) is None);
                assert(gone matches Some(Err(_)) || gone is None);
                assert forall|h: u64, k: Key, v: Ver| #[trigger] self.lookup(h, k, v) is Some implies self.lookup(h, k, v) == old(self).lookup(h, k, v) by {
                    if !(h == hash && k == key && v == version) {
                        assert(before_rm.lookup(h, k, v) == self.lookup(h, k, v));
                    }
                }
                self.lemma_no_answer(hash, key, version);
                if evicted is Some {
                    let e = evicted.unwrap();
                    let h2 = choose|h2: u64|
                        #[trigger] old(self).lookup(h2, e.spec_key(), e.spec_version()) == Some(e.spec_value())
                            && before_rm.lookup(h2, e.spec_key(), e.spec_version()) is None;
                    assert(self.lookup(h2, e.spec_key(), e.spec_version()) is None);
                }
            }
        } else {
            enter_hot = self.weight_hot + w as u128 <= self.weight_target_hot as u128;
            if !enter_hot && !self.ghost_budget_set {
                proof {
                    self.lemma_empty_ring_weight();
                }
                let wh: u128 = self.weight_hot;
                let num_hot: u128 = self.hot.len() as u128;
                self.capacity_non_resident = #[verifier::truncate] ((((wh + wh / 8) / num_hot) / 2) as usize);
                self.ghost_budget_set = true;
            }
        }
        let ghost mid = *self;
        self.admit_new(hash, key, version, value, w, enter_hot);
        proof {
            if evicted is Some {
                let e = evicted.unwrap();
                let h2 = choose|h2: u64|
                    #[trigger] old(self).lookup(h2, e.spec_key(), e.spec_version()) == Some(e.spec_value())
                        && mid.lookup(h2, e.spec_key(), e.spec_version()) is None;
                assert(self.lookup(h2, e.spec_key(), e.spec_version()) is None);
            }
        }
        assert forall|h: u64, k: Key, v: Ver|
            !(h == hash && k == key && v == version) && #[trigger] self.lookup(h, k, v) is Some
                implies self.lookup(h, k, v) == old(self).lookup(h, k, v) by {
            assert(mid.lookup(h, k, v) == self.lookup(h, k, v));
        }
        evicted
    }

    /// Removes the entry that a lookup of (hash, key, version) stops at: the resident with
    /// that identity, or a ghost with that hash. Hands the entry back.
    pub fn remove(&mut self, hash: u64, key: &Key, version: &Ver) -> (r: Option<Entry<Key, Ver, Val>>)
        requires
            old(self).wf(),
        ensures
            final(self).wf(),
            final(self).spec_capacity() == old(self).spec_capacity(),
            final(self).spec_target_hot() == old(self).spec_target_hot(),
            final(self).spec_hits() == old(self).spec_hits(),
            final(self).spec_misses() == old(self).spec_misses(),
            final(self).spec_weighter() == old(self).spec_weighter(),
            final(self).slab_len() == old(self).slab_len(),
            final(self).ghost_budget() == old(self).ghost_budget(),
            final(self).ghost_budget_fixed() == old(self).ghost_budget_fixed(),
            !final(self).has_ghost(hash),
            match old(self).find(hash, *key, *version) {
                Some(res) => r == Some(Ok::<Resident<Key, Ver, Val>, u64>(res))
                    && res.spec_key() == *key && res.spec_version() == *version
                    && res.spec_weight() == old(self).entry_weight(&res.spec_key(), &res.spec_version(), &res.spec_value())
                    && final(self).num_hot() + final(self).num_cold() == old(self).num_hot() + old(self).num_cold() - 1
                    && final(self).num_ghost() == old(self).num_ghost()
                    && final(self).spec_weight_hot() + final(self).spec_weight_cold()
                        == old(self).spec_weight_hot() + old(self).spec_weight_cold() - res.spec_weight(),
                None => if old(self).has_ghost(hash) {
                    r == Some(Err::<Resident<Key, Ver, Val>, u64>(hash))
                        && final(self).num_ghost() == old(self).num_ghost() - 1
                        && final(self).num_hot() == old(self).num_hot()
                        && final(self).num_cold() == old(self).num_cold()
                        && final(self).spec_weight_hot() == old(self).spec_weight_hot()
                        && final(self).spec_weight_cold() == old(self).spec_weight_cold()
                } else {
                    r is None && final(self).same_state(old(self))
                },
            },
            final(self).lookup(hash, *key, *version) is None,
            forall|h: u64, k: Key, v: Ver|
                !(h == hash && k == *key && v == *version) ==> #[trigger] final(self).lookup(h, k, v) == old(self).lookup(h, k, v),
            final(self).no_new_ghosts(old(self)),
    {
        let found = self.search(hash, key, version);
        proof {
            self.lemma_search_find(found, hash, *key, *version);
            if found is None {
                if self.has_ghost(hash) {
                    let i = choose|i: int| 0 <= i < self.entries@.len() && (#[trigger] self.entries@[i]).entry == Some(Err::<Resident<Key, Ver, Val>, u64>(hash));
                    assert(ghost_hash_ok(self.entries@[i]));
                    assert(answers(self.entries@[i], hash, *key, *version));
                }
            }
        }
        let idx = match found {
            Some(i) => i,
            None => return None,
        };
        let ghost s = self.entries@;
        proof {
            assert(ghost_hash_ok(s[idx as int]));
            lemma_class_weight_update(s, idx as int, Slot { entry: None, hash: 0 }, true);
            lemma_class_weight_update(s, idx as int, Slot { entry: None, hash: 0 }, false);
            if s[idx as int].entry matches Some(Err(_)) {
                if exists|j: int| resident_at(s, j, hash, *key, *version) {
                    let j = choose|j: int| resident_at(s, j, hash, *key, *version);
                    assert(distinct_residents(s[idx as int], s[j]));
                }
                assert(self.has_ghost(hash));
            }
        }
        index_remove(&mut self.map, hash, idx);
        let slot = replace_slot(&mut self.entries, idx, Slot { entry: None, hash: 0 });
        let Slot { entry, hash: _ } = slot;
        let removed = match entry {
            Some(e) => e,
            None => vstd::pervasive::unreached(),
        };
        let ghost p: int;
        match &removed {
            Ok(res) => {
                if res.state == ResidentState::Hot {
                    proof {
                        assert(in_hot(s[idx as int].entry));
                        assert(old(self).hot@.contains(idx));
                    }
                    let q = ring_remove(&mut self.hot, idx);
                    proof {
                        p = q as int;
                    }
                    self.weight_hot = self.weight_hot - res.weight as u128;
                } else {
                    proof {
                        assert(in_cold(s[idx as int].entry));
                        assert(old(self).cold@.contains(idx));
                    }
                    let q = ring_remove(&mut self.cold, idx);
                    proof {
                        p = q as int;
                    }
                    self.weight_cold = self.weight_cold - res.weight as u128;
                }
            },
            Err(_) => {
                proof {
                    assert(in_ghost(s[idx as int].entry));
                    assert(old(self).ghosts@.contains(idx));
                }
                let q = ring_remove(&mut self.ghosts, idx);
                proof {
                    p = q as int;
                }
            },
        }
        self.free.push(idx);
        proof {
            let s2 = self.entries@;
            assert(agree_except(s, s2, idx as int));
            match s[idx as int].entry {
                Some(Ok(res)) => {
                    if res.state == ResidentState::Hot {
                        lemma_ring_leave(old(self).hot@, s, s2, p, |e| in_hot(e));
                        lemma_ring_frame(self.cold@, s, s2, idx as int, |e| in_cold(e));
                    } else {
                        lemma_ring_leave(old(self).cold@, s, s2, p, |e| in_cold(e));
                        lemma_ring_frame(self.hot@, s, s2, idx as int, |e| in_hot(e));
                    }
                    lemma_ring_frame(self.ghosts@, s, s2, idx as int, |e| in_ghost(e));
                },
                _ => {
                    lemma_ring_leave(old(self).ghosts@, s, s2, p, |e| in_ghost(e));
                    lemma_ring_frame(self.hot@, s, s2, idx as int, |e| in_hot(e));
                    lemma_ring_frame(self.cold@, s, s2, idx as int, |e| in_cold(e));
                },
            }
            lemma_index_vacate(s, index_contents(old(self).map), index_contents(self.map), idx as int);
            assert(s2 =~= s.update(idx as int, Slot { entry: None, hash: 0 }));
            if exists|j: int| resident_at(s2, j, hash, *key, *version) {
                let j = choose|j: int| resident_at(s2, j, hash, *key, *version);
                assert(s2[j] == s[j]);
                assert(distinct_residents(s[idx as int], s[j]));
            }
            if self.has_ghost(hash) {
                let j = choose|j: int| 0 <= j < s2.len() && (#[trigger] s2[j]).entry == Some(Err::<Resident<Key, Ver, Val>, u64>(hash));
                assert(s2[j] == s[j]);
                assert(distinct_residents(s[idx as int], s[j]));
            }
            if s[idx as int].entry matches Some(Ok(_)) {
                old(self).lemma_find_at(idx as int, hash, *key, *version);
                assert(recorded_ok(s[idx as int], old(self).weighter));
            }
            assert forall|h: u64, k: Key, v: Ver|
                !(h == hash && k == *key && v == *version) implies #[trigger] self.lookup(h, k, v) == old(self).lookup(h, k, v) by {
                lemma_find_in_frame(s, s2, idx as int, h, k, v);
            }
        }
        Some(removed)
    }

    /// Looks up an entry for writing, without marking it or counting the lookup.
    pub fn peek_mut(&mut self, hash: u64, key: &Key, version: &Ver) -> (r: Option<&mut Val>)
        requires
            old(self).wf(),
        ensures
            match r {
                Some(v) => old(self).lookup(hash, *key, *version) == Some(*v),
                None => old(self).lookup(hash, *key, *version) is None && *final(self) == *old(self),
            },
            final(self).spec_weight_hot() == old(self).spec_weight_hot(),
            final(self).spec_weight_cold() == old(self).spec_weight_cold(),
            final(self).num_hot() == old(self).num_hot(),
            final(self).num_cold() == old(self).num_cold(),
            final(self).num_ghost() == old(self).num_ghost(),
            final(self).spec_capacity() == old(self).spec_capacity(),
            final(self).spec_target_hot() == old(self).spec_target_hot(),
            final(self).ghost_budget() == old(self).ghost_budget(),
            final(self).ghost_budget_fixed() == old(self).ghost_budget_fixed(),
            final(self).slab_len() == old(self).slab_len(),
            final(self).spec_weighter() == old(self).spec_weighter(),
            final(self).spec_hits() == old(self).spec_hits(),
            final(self).spec_misses() == old(self).spec_misses(),
    {
        let found = self.search(hash, key, version);
        proof {
            self.lemma_search_find(found, hash, *key, *version);
        }
        if let Some(i) = found {
            if let Some(Ok(_)) = &self.entries[i].entry {
                return match &mut self.entries[i].entry {
                    Some(Ok(res)) => Some(&mut res.value),
                    _ => None,
                };
            }
        }
        None
    }

    /// Looks up an entry for writing, marks it referenced and counts a hit; counts a miss
    /// if no resident is found.
    pub fn get_mut(&mut self, hash: u64, key: &Key, version: &Ver) -> (r: Option<&mut Val>)
        requires
            old(self).wf(),
        ensures
            match r {
                Some(v) => old(self).lookup(hash, *key, *version) == Some(*v),
                None => old(self).lookup(hash, *key, *version) is None
                    && final(self).spec_misses() == wrapping_inc(old(self).spec_misses())
                    && final(self).spec_hits() == old(self).spec_hits()
                    && final(self).wf()
                    && forall|h: u64, k: Key, v: Ver| #[trigger] final(self).find(h, k, v) == old(self).find(h, k, v),
            },
            r is Some ==> final(self).spec_hits() == wrapping_inc(old(self).spec_hits())
                && final(self).spec_misses() == old(self).spec_misses(),
            final(self).spec_weight_hot() == old(self).spec_weight_hot(),
            final(self).spec_weight_cold() == old(self).spec_weight_cold(),
            final(self).num_hot() == old(self).num_hot(),
            final(self).num_cold() == old(self).num_cold(),
            final(self).num_ghost() == old(self).num_ghost(),
            final(self).spec_capacity() == old(self).spec_capacity(),
            final(self).spec_target_hot() == old(self).spec_target_hot(),
            final(self).ghost_budget() == old(self).ghost_budget(),
            final(self).ghost_budget_fixed() == old(self).ghost_budget_fixed(),
            final(self).slab_len() == old(self).slab_len(),
            final(self).spec_weighter() == old(self).spec_weighter(),
    {
        let found = self.search(hash, key, version);
        proof {
            self.lemma_search_find(found, hash, *key, *version);
        }
        if let Some(i) = found {
            if let Some(Ok(_)) = &self.entries[i].entry {
                self.set_referenced(i, true);
                self.hits = self.hits.wrapping_add(1);
                proof {
                    Self::lemma_same_shape_find(old(self), self, i as int, hash, *key, *version);
                }
                return match &mut self.entries[i].entry {
                    Some(Ok(res)) => Some(&mut res.value),
                    _ => None,
                };
            }
        }
        self.misses = self.misses.wrapping_add(1);
        None
    }

    /// Two shards in the same state look the same through every observer.
    pub proof fn lemma_same_state(&self, other: &Self)
        requires
            self.same_state(other),
        ensures
            forall|h: u64, k: Key, v: Ver| #[trigger] self.find(h, k, v) == other.find(h, k, v),
            forall|h: u64| #[trigger] self.has_ghost(h) == other.has_ghost(h),
            self.spec_weight_hot() == other.spec_weight_hot(),
            self.spec_weight_cold() == other.spec_weight_cold(),
            self.num_hot() == other.num_hot(),
            self.num_cold() == other.num_cold(),
            self.num_ghost() == other.num_ghost(),
            self.spec_capacity() == other.spec_capacity(),
            self.spec_target_hot() == other.spec_target_hot(),
            self.ghost_budget() == other.ghost_budget(),
            self.ghost_budget_fixed() == other.ghost_budget_fixed(),
            self.slab_len() == other.slab_len(),
            self.spec_hits() == other.spec_hits(),
            self.spec_misses() == other.spec_misses(),
            self.spec_weighter() == other.spec_weighter(),
            self.wf() == other.wf(),
    {
    }

    /// A stored resident's recorded weight is what the weighter gives its key, version and
    /// value, so every weight change below is the weighter's value of the entry that
    /// came, left or changed.
    pub proof fn lemma_recorded_weight(&self, hash: u64, key: Key, version: Ver)
        requires
            self.wf(),
        ensures
            match self.find(hash, key, version) {
                Some(r) => r.spec_weight() == self.entry_weight(&r.spec_key(), &r.spec_version(), &r.spec_value())
                    && r.spec_key() == key && r.spec_version() == version,
                None => true,
            },
    {
        if exists|i: int| resident_at(self.entries@, i, hash, key, version) {
            let i = choose|i: int| resident_at(self.entries@, i, hash, key, version);
            lemma_find_in_at(self.entries@, i, hash, key, version);
            assert(recorded_ok(self.entries@[i], self.weighter));
        }
    }

    /// Between public calls the resident weight stays within the capacity, the ghost
    /// count within the ghost budget, every slot sits in the ring of its state, and every
    /// slot is reachable through the index under its hash.
    pub proof fn lemma_wf_bounds(&self)
        requires
            self.wf(),
        ensures
            self.spec_weight_hot() + self.spec_weight_cold() <= self.spec_capacity(),
            self.num_ghost() <= self.ghost_budget(),
            self.rings_consistent(),
            self.index_consistent(),
    {
    }
}

} // verus!
