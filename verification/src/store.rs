//! The keyspace: values by key, an optional expiry for each, and expiry that
//! happens when a key is next read.

use crate::clock::Clock;
use crate::resp::command::{SetCommandExistFlag, SetCommandFlags, SetCommandTTLFlag};
use vstd::prelude::*;
use vstd::slice::slice_to_vec;

verus! {

/// What a keyspace holds: the value of each key, and for some keys the time,
/// in milliseconds since the Unix epoch, at which they expire.
pub ghost struct StoreView {
    pub values: Map<Seq<u8>, Seq<u8>>,
    pub expirations: Map<Seq<u8>, nat>,
}

/// The time at which a key that is set with `ttl` at `now` expires, if this
/// sets one.
pub open spec fn expiry_of(ttl: SetCommandTTLFlag, now: nat) -> Option<nat> {
    match ttl {
        SetCommandTTLFlag::EX(seconds) => Some((now + seconds * 1000) as nat),
        SetCommandTTLFlag::PX(millis) => Some((now + millis) as nat),
        SetCommandTTLFlag::EXAT(seconds) => Some((seconds * 1000) as nat),
        SetCommandTTLFlag::PXAT(millis) => Some(millis as nat),
        SetCommandTTLFlag::KEEPTTL => None,
    }
}

/// Whether `exist` forbids a write to a key that holds `existing`.
pub open spec fn write_suppressed(
    exist: Option<SetCommandExistFlag>,
    existing: Option<Seq<u8>>,
) -> bool {
    match exist {
        Some(SetCommandExistFlag::NX) => existing is Some,
        Some(SetCommandExistFlag::XX) => existing is None,
        None => false,
    }
}

impl StoreView {
    /// The keyspace that holds nothing.
    pub open spec fn empty() -> StoreView {
        StoreView { values: Map::empty(), expirations: Map::empty() }
    }

    /// Only a key that has a value has an expiry.
    pub open spec fn consistent(self) -> bool {
        self.expirations.dom().subset_of(self.values.dom())
    }

    /// Whether `key` has an expiry and `now` has reached it.
    pub open spec fn expired(self, key: Seq<u8>, now: nat) -> bool {
        self.expirations.contains_key(key) && now >= self.expirations[key]
    }

    /// The keyspace without `key`.
    pub open spec fn without(self, key: Seq<u8>) -> StoreView {
        StoreView { values: self.values.remove(key), expirations: self.expirations.remove(key) }
    }

    /// A read of `key` at `now`: an expired key is removed and reads as
    /// absent; any other key reads as its value, if it has one.
    pub open spec fn get(self, key: Seq<u8>, now: nat) -> (StoreView, Option<Seq<u8>>) {
        if self.expired(key, now) {
            (self.without(key), None)
        } else if self.values.contains_key(key) {
            (self, Some(self.values[key]))
        } else {
            (self, None)
        }
    }

    /// The expirations after a write to `key` with `ttl` at `now`: without a
    /// TTL option the key loses its expiry, `KEEPTTL` leaves it, and any
    /// other option sets it.
    pub open spec fn expirations_after(
        self,
        key: Seq<u8>,
        ttl: Option<SetCommandTTLFlag>,
        now: nat,
    ) -> Map<Seq<u8>, nat> {
        match ttl {
            None => self.expirations.remove(key),
            Some(option) => match expiry_of(option, now) {
                Some(expiry) => self.expirations.insert(key, expiry),
                None => self.expirations,
            },
        }
    }

    /// A write of `value` to `key` at `now`, and whether it took place. With
    /// `NX` or `XX` the key is read first, which expires it if its time has
    /// come, and the write is suppressed if the flag forbids it.
    pub open spec fn set(
        self,
        key: Seq<u8>,
        value: Seq<u8>,
        flags: SetCommandFlags,
        now: nat,
    ) -> (StoreView, bool) {
        let (read, existing) = if flags.exist_flag is Some {
            self.get(key, now)
        } else {
            (self, None)
        };
        if write_suppressed(flags.exist_flag, existing) {
            (read, false)
        } else {
            (
                StoreView {
                    values: read.values.insert(key, value),
                    expirations: read.expirations_after(key, flags.ttl_flag, now),
                },
                true,
            )
        }
    }
}

/// Reads and writes keep the keyspace consistent: where only keys with a
/// value had an expiry before, the same holds after.
pub proof fn lemma_consistency_is_kept(
    store: StoreView,
    key: Seq<u8>,
    value: Seq<u8>,
    flags: SetCommandFlags,
    now: nat,
)
    requires
        store.consistent(),
    ensures
        store.get(key, now).0.consistent(),
        store.set(key, value, flags, now).0.consistent(),
{
    let read = store.get(key, now).0;
    assert(read.consistent());
    let written = store.set(key, value, flags, now).0;
    assert forall|k: Seq<u8>| written.expirations.dom().contains(k) implies written.values.dom().contains(
        k,
    ) by {
        if k != key {
            assert(read.expirations.dom().contains(k));
        }
    }
}

/// What an optional value stands for.
pub open spec fn value_view(value: Option<Vec<u8>>) -> Option<Seq<u8>> {
    match value {
        Some(bytes) => Some(bytes@),
        None => None,
    }
}

/// One key with its value and its expiry.
struct StoreEntry {
    key: Vec<u8>,
    value: Vec<u8>,
    expiry: Option<u128>,
}

/// Whether some entry has the key `key`.
spec fn has_key(entries: Seq<StoreEntry>, key: Seq<u8>) -> bool {
    exists|i: int| 0 <= i < entries.len() && (#[trigger] entries[i]).key@ == key
}

/// The place of an entry with the key `key`.
spec fn index_of(entries: Seq<StoreEntry>, key: Seq<u8>) -> int {
    choose|i: int| 0 <= i < entries.len() && (#[trigger] entries[i]).key@ == key
}

/// No two entries have the same key.
spec fn unique_keys(entries: Seq<StoreEntry>) -> bool {
    forall|i: int, j: int|
        0 <= i < j < entries.len() ==> (#[trigger] entries[i]).key@ != (#[trigger] entries[j]).key@
}

/// The values that the entries hold, by key.
spec fn values_of(entries: Seq<StoreEntry>) -> Map<Seq<u8>, Seq<u8>> {
    Map::new(
        |key: Seq<u8>| has_key(entries, key),
        |key: Seq<u8>| entries[index_of(entries, key)].value@,
    )
}

/// The expiries that the entries hold, by key.
spec fn expirations_of(entries: Seq<StoreEntry>) -> Map<Seq<u8>, nat> {
    Map::new(
        |key: Seq<u8>| has_key(entries, key) && entries[index_of(entries, key)].expiry is Some,
        |key: Seq<u8>| entries[index_of(entries, key)].expiry->Some_0 as nat,
    )
}

/// What the entries hold.
spec fn view_of(entries: Seq<StoreEntry>) -> StoreView {
    StoreView { values: values_of(entries), expirations: expirations_of(entries) }
}

/// Among entries with unique keys, the place of a key is the place of the
/// one entry that has it.
proof fn lemma_index_of(entries: Seq<StoreEntry>, i: int)
    requires
        unique_keys(entries),
        0 <= i < entries.len(),
    ensures
        has_key(entries, entries[i].key@),
        index_of(entries, entries[i].key@) == i,
{
    let key = entries[i].key@;
    assert(entries[i].key@ == key);
    let j = index_of(entries, key);
    if j != i {
        if j < i {
            assert(entries[j].key@ != entries[i].key@);
        } else {
            assert(entries[i].key@ != entries[j].key@);
        }
    }
}

/// Replacing an entry by one with the same key writes that key.
proof fn lemma_view_update(entries: Seq<StoreEntry>, i: int, entry: StoreEntry)
    requires
        unique_keys(entries),
        0 <= i < entries.len(),
        entry.key@ == entries[i].key@,
    ensures
        unique_keys(entries.update(i, entry)),
        values_of(entries.update(i, entry)) == values_of(entries).insert(entry.key@, entry.value@),
        expirations_of(entries.update(i, entry)) == match entry.expiry {
            Some(expiry) => expirations_of(entries).insert(entry.key@, expiry as nat),
            None => expirations_of(entries).remove(entry.key@),
        },
{
    let updated = entries.update(i, entry);
    assert(unique_keys(updated)) by {
        assert forall|a: int, b: int| 0 <= a < b < updated.len() implies (#[trigger] updated[a]).key@
            != (#[trigger] updated[b]).key@ by {
            assert(entries[a].key@ != entries[b].key@);
        }
    }
    assert forall|key: Seq<u8>| has_key(updated, key) == has_key(entries, key) by {
        if has_key(updated, key) {
            let j = index_of(updated, key);
            assert(entries[j].key@ == key);
        }
        if has_key(entries, key) {
            let j = index_of(entries, key);
            assert(updated[j].key@ == key);
        }
    }
    assert forall|key: Seq<u8>| has_key(entries, key) implies index_of(updated, key) == index_of(
        entries,
        key,
    ) by {
        let j = index_of(entries, key);
        lemma_index_of(entries, j);
        lemma_index_of(updated, j);
    }
    lemma_index_of(entries, i);
    lemma_index_of(updated, i);
    assert(values_of(updated) =~= values_of(entries).insert(entry.key@, entry.value@));
    match entry.expiry {
        Some(expiry) => {
            assert(expirations_of(updated) =~= expirations_of(entries).insert(
                entry.key@,
                expiry as nat,
            ));
        },
        None => {
            assert(expirations_of(updated) =~= expirations_of(entries).remove(entry.key@));
        },
    }
}

/// Adding an entry with a new key writes that key.
proof fn lemma_view_push(entries: Seq<StoreEntry>, entry: StoreEntry)
    requires
        unique_keys(entries),
        !has_key(entries, entry.key@),
    ensures
        unique_keys(entries.push(entry)),
        values_of(entries.push(entry)) == values_of(entries).insert(entry.key@, entry.value@),
        expirations_of(entries.push(entry)) == match entry.expiry {
            Some(expiry) => expirations_of(entries).insert(entry.key@, expiry as nat),
            None => expirations_of(entries).remove(entry.key@),
        },
{
    let pushed = entries.push(entry);
    let last = entries.len() as int;
    assert(unique_keys(pushed)) by {
        assert forall|a: int, b: int| 0 <= a < b < pushed.len() implies (#[trigger] pushed[a]).key@
            != (#[trigger] pushed[b]).key@ by {
            if b == last {
                assert(entries[a].key@ != entry.key@);
            } else {
                assert(entries[a].key@ != entries[b].key@);
            }
        }
    }
    assert forall|key: Seq<u8>| has_key(pushed, key) == (has_key(entries, key) || key
        == entry.key@) by {
        if has_key(pushed, key) {
            let j = index_of(pushed, key);
            if j < last {
                assert(entries[j].key@ == key);
            }
        }
        if has_key(entries, key) {
            let j = index_of(entries, key);
            assert(pushed[j].key@ == key);
        }
        if key == entry.key@ {
            assert(pushed[last].key@ == key);
        }
    }
    assert forall|key: Seq<u8>| has_key(entries, key) implies index_of(pushed, key) == index_of(
        entries,
        key,
    ) by {
        let j = index_of(entries, key);
        lemma_index_of(entries, j);
        lemma_index_of(pushed, j);
    }
    lemma_index_of(pushed, last);
    assert(values_of(pushed) =~= values_of(entries).insert(entry.key@, entry.value@));
    match entry.expiry {
        Some(expiry) => {
            assert(expirations_of(pushed) =~= expirations_of(entries).insert(
                entry.key@,
                expiry as nat,
            ));
        },
        None => {
            assert(expirations_of(pushed) =~= expirations_of(entries).remove(entry.key@));
        },
    }
}

/// Taking an entry out removes its key.
proof fn lemma_view_remove(entries: Seq<StoreEntry>, i: int)
    requires
        unique_keys(entries),
        0 <= i < entries.len(),
    ensures
        unique_keys(entries.remove(i)),
        view_of(entries.remove(i)) == view_of(entries).without(entries[i].key@),
{
    let removed = entries.remove(i);
    let gone = entries[i].key@;
    assert(unique_keys(removed)) by {
        assert forall|a: int, b: int| 0 <= a < b < removed.len() implies (#[trigger] removed[a]).key@
            != (#[trigger] removed[b]).key@ by {
            let a0 = if a < i {
                a
            } else {
                a + 1
            };
            let b0 = if b < i {
                b
            } else {
                b + 1
            };
            assert(entries[a0].key@ != entries[b0].key@);
        }
    }
    assert forall|key: Seq<u8>| has_key(removed, key) == (has_key(entries, key) && key != gone) by {
        if has_key(removed, key) {
            let j = index_of(removed, key);
            let j0 = if j < i {
                j
            } else {
                j + 1
            };
            assert(entries[j0].key@ == key);
            lemma_index_of(entries, j0);
            lemma_index_of(entries, i);
        }
        if has_key(entries, key) && key != gone {
            let j = index_of(entries, key);
            let j1 = if j < i {
                j
            } else {
                j - 1
            };
            assert(removed[j1].key@ == key);
        }
    }
    assert forall|key: Seq<u8>| has_key(removed, key) implies entries[index_of(entries, key)]
        == removed[index_of(removed, key)] by {
        let j = index_of(removed, key);
        let j0 = if j < i {
            j
        } else {
            j + 1
        };
        assert(entries[j0].key@ == key);
        lemma_index_of(entries, j0);
    }
    assert(values_of(removed) =~= values_of(entries).remove(gone));
    assert(expirations_of(removed) =~= expirations_of(entries).remove(gone));
}

/// Whether two byte strings are the same.
fn same_bytes(a: &[u8], b: &[u8]) -> (same: bool)
    ensures
        same == (a@ == b@),
{
    if a.len() != b.len() {
        return false;
    }
    let mut i: usize = 0;
    while i < a.len()
        invariant
            0 <= i <= a@.len(),
            a@.len() == b@.len(),
            forall|j: int| 0 <= j < i ==> a@[j] == b@[j],
        decreases a@.len() - i,
    {
        if a[i] != b[i] {
            return false;
        }
        i = i + 1;
    }
    assert(a@ =~= b@);
    true
}

/// The in-memory keyspace, with the clock that it reads.
pub struct RedisStore {
    entries: Vec<StoreEntry>,
    clock: Clock,
}

impl View for RedisStore {
    type V = StoreView;

    closed spec fn view(&self) -> StoreView {
        view_of(self.entries@)
    }
}

impl Default for RedisStore {
    /// An empty keyspace on the system clock.
    fn default() -> (store: RedisStore)
        ensures
            store.wf(),
            store@ == StoreView::empty(),
            store.clock().frozen_at() is None,
    {
        let store = RedisStore { entries: Vec::new(), clock: Clock::new() };
        proof {
            assert(store@.values =~= Map::<Seq<u8>, Seq<u8>>::empty());
            assert(store@.expirations =~= Map::<Seq<u8>, nat>::empty());
        }
        store
    }
}

impl RedisStore {
    /// No key occurs twice. Every store that this module hands out is well
    /// formed, and every operation keeps it so.
    pub closed spec fn wf(self) -> bool {
        unique_keys(self.entries@)
    }

    /// Whether the store is well formed, found out by comparing every key
    /// with every other.
    pub fn is_well_formed(&self) -> (ok: bool)
        ensures
            ok == self.wf(),
    {
        let mut j: usize = 0;
        while j < self.entries.len()
            invariant
                0 <= j <= self.entries@.len(),
                forall|a: int, b: int|
                    0 <= a < b < j ==> (#[trigger] self.entries@[a]).key@ != (
                    #[trigger] self.entries@[b]).key@,
            decreases self.entries@.len() - j,
        {
            let mut i: usize = 0;
            while i < j
                invariant
                    0 <= i <= j < self.entries@.len(),
                    forall|a: int|
                        0 <= a < i ==> (#[trigger] self.entries@[a]).key@ != self.entries@[j as int].key@,
                decreases j - i,
            {
                if same_bytes(self.entries[i].key.as_slice(), self.entries[j].key.as_slice()) {
                    return false;
                }
                i = i + 1;
            }
            j = j + 1;
        }
        true
    }

    /// The clock by which the store expires keys.
    pub closed spec fn clock(self) -> Clock {
        self.clock
    }

    /// The clock by which the store expires keys.
    pub fn current_clock(&self) -> (clock: Clock)
        ensures
            clock == self.clock(),
    {
        self.clock
    }

    /// Makes the store read `clock` from now on. What it holds stays.
    pub fn set_clock(&mut self, clock: Clock)
        ensures
            final(self).clock() == clock,
            final(self)@ == old(self)@,
            final(self).wf() == old(self).wf(),
    {
        self.clock = clock;
    }

    /// In a well-formed store only a key that has a value has an expiry.
    pub proof fn lemma_consistent(self)
        requires
            self.wf(),
        ensures
            self@.consistent(),
    {
    }

    /// The time by which the store expires keys, in milliseconds since the
    /// Unix epoch.
    pub fn get_unix_time(&self) -> (now: u64)
        ensures
            self.clock().may_read(now),
    {
        self.clock.now()
    }

    /// Where the entry of `key` is, if there is one.
    fn find(&self, key: &[u8]) -> (found: Option<usize>)
        ensures
            match found {
                Some(i) => i < self.entries@.len() && self.entries@[i as int].key@ == key@,
                None => !has_key(self.entries@, key@),
            },
    {
        let mut i: usize = 0;
        while i < self.entries.len()
            invariant
                0 <= i <= self.entries@.len(),
                forall|j: int| 0 <= j < i ==> (#[trigger] self.entries@[j]).key@ != key@,
            decreases self.entries@.len() - i,
        {
            if same_bytes(self.entries[i].key.as_slice(), key) {
                return Some(i);
            }
            i = i + 1;
        }
        None
    }

    /// Removes `key` if it has an expiry that `now` has reached, and says
    /// whether it did.
    pub fn try_expire(&mut self, key: &[u8], now: u64) -> (expired: bool)
        requires
            old(self).wf(),
        ensures
            final(self).wf(),
            final(self).clock() == old(self).clock(),
            expired == old(self)@.expired(key@, now as nat),
            final(self)@ == if expired {
                old(self)@.without(key@)
            } else {
                old(self)@
            },
    {
        match self.find(key) {
            None => false,
            Some(i) => {
                proof {
                    lemma_index_of(self.entries@, i as int);
                }
                let due: bool = match self.entries[i].expiry {
                    Some(expiry) => now as u128 >= expiry,
                    None => false,
                };
                if due {
                    proof {
                        lemma_view_remove(self.entries@, i as int);
                    }
                    let _ = self.entries.remove(i);
                }
                due
            },
        }
    }

    /// Reads `key` at the time `now`: an expired key is removed and reads as
    /// absent.
    pub fn get_at(&mut self, key: &[u8], now: u64) -> (value: Option<Vec<u8>>)
        requires
            old(self).wf(),
        ensures
            final(self).wf(),
            final(self).clock() == old(self).clock(),
            (final(self)@, value_view(value)) == old(self)@.get(key@, now as nat),
    {
        if self.try_expire(key, now) {
            return None;
        }
        match self.find(key) {
            None => None,
            Some(i) => {
                proof {
                    lemma_index_of(self.entries@, i as int);
                }
                Some(slice_to_vec(self.entries[i].value.as_slice()))
            },
        }
    }

    /// Reads `key` at the time that the store's clock reads.
    pub fn get(&mut self, key: &[u8]) -> (value: Option<Vec<u8>>)
        requires
            old(self).wf(),
        ensures
            final(self).wf(),
            final(self).clock() == old(self).clock(),
            exists|now: u64|
                old(self).clock().may_read(now) && (final(self)@, value_view(value))
                    == #[trigger] old(self)@.get(key@, now as nat),
    {
        let now = self.get_unix_time();
        self.get_at(key, now)
    }

    /// Writes `value` to `key` at the time `now`, as `flags` say, and says
    /// whether the write took place.
    pub fn set_at(&mut self, key: &[u8], value: &[u8], flags: &SetCommandFlags, now: u64) -> (written:
        bool)
        requires
            old(self).wf(),
        ensures
            final(self).wf(),
            final(self).clock() == old(self).clock(),
            (final(self)@, written) == old(self)@.set(key@, value@, *flags, now as nat),
    {
        match flags.exist_flag {
            Some(exist) => {
                let existing = self.get_at(key, now);
                let suppressed: bool = match exist {
                    SetCommandExistFlag::NX => existing.is_some(),
                    SetCommandExistFlag::XX => existing.is_none(),
                };
                if suppressed {
                    return false;
                }
            },
            None => {},
        }
        let found = self.find(key);
        let kept: Option<u128> = match found {
            Some(i) => self.entries[i].expiry,
            None => None,
        };
        let expiry: Option<u128> = match flags.ttl_flag {
            None => None,
            Some(SetCommandTTLFlag::EX(seconds)) => Some(now as u128 + seconds as u128 * 1000),
            Some(SetCommandTTLFlag::PX(millis)) => Some(now as u128 + millis as u128),
            Some(SetCommandTTLFlag::EXAT(seconds)) => Some(seconds as u128 * 1000),
            Some(SetCommandTTLFlag::PXAT(millis)) => Some(millis as u128),
            Some(SetCommandTTLFlag::KEEPTTL) => kept,
        };
        let entry = StoreEntry { key: slice_to_vec(key), value: slice_to_vec(value), expiry };
        let ghost before = self.entries@;
        match found {
            Some(i) => {
                proof {
                    lemma_index_of(before, i as int);
                    lemma_view_update(before, i as int, entry);
                }
                self.entries.set(i, entry);
                proof {
                    assert(self@.expirations =~= view_of(before).expirations_after(
                        key@,
                        flags.ttl_flag,
                        now as nat,
                    ));
                }
            },
            None => {
                proof {
                    lemma_view_push(before, entry);
                }
                self.entries.push(entry);
                proof {
                    assert(self@.expirations =~= view_of(before).expirations_after(
                        key@,
                        flags.ttl_flag,
                        now as nat,
                    ));
                }
            },
        }
        true
    }

    /// Writes `value` to `key` at the time that the store's clock reads.
    pub fn set(&mut self, key: &[u8], value: &[u8], flags: &SetCommandFlags) -> (written: bool)
        requires
            old(self).wf(),
        ensures
            final(self).wf(),
            final(self).clock() == old(self).clock(),
            exists|now: u64|
                old(self).clock().may_read(now) && (final(self)@, written) == #[trigger] old(
                    self,
                )@.set(key@, value@, *flags, now as nat),
    {
        let now = self.get_unix_time();
        self.set_at(key, value, flags, now)
    }
}

} // verus!
