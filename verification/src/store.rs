use vstd::prelude::*;

use crate::glob::bytes_eq;
use crate::glob::glob_matches;
use crate::glob::glob_match;

verus! {

/// One keyed entry of the store; `ttl` is `None` when the key is persistent.
pub struct Entry {
    pub key: Vec<u8>,
    pub ttl: Option<u64>,
}

/// Mathematical image of an entry.
pub ghost struct EntryV {
    pub key: Seq<u8>,
    pub ttl: Option<u64>,
}

impl View for Entry {
    type V = EntryV;

    open spec fn view(&self) -> EntryV {
        EntryV { key: self.key@, ttl: self.ttl }
    }
}

/// Fault mode of a store session: either every call of one operation
/// fails, or none does.
#[derive(Clone, Copy, PartialEq, Eq, Structural, Debug)]
pub enum FaultMode {
    Reliable,
    ScanFails,
    TtlFails,
    ExpireFails,
}

/// A store-level failure, as a sweep observes it.
#[derive(Clone, Copy, PartialEq, Eq, Structural, Debug)]
pub enum StoreError {
    Scan,
    TtlQuery,
    Expire,
}

/// What a TTL query reports for one key.
#[derive(Clone, Copy, PartialEq, Eq, Structural, Debug)]
pub enum KeyTtl {
    Absent,
    Persistent,
    Expires(u64),
}

/// Whether some entry of `s` carries `key`.
pub open spec fn has_key(s: Seq<EntryV>, key: Seq<u8>) -> bool {
    exists|i: int| 0 <= i < s.len() && s[i].key == key
}

/// Index of the first entry carrying `key`, or `s.len()` when there is none.
pub open spec fn key_index(s: Seq<EntryV>, key: Seq<u8>) -> int
    decreases s.len(),
{
    if s.len() == 0 {
        0
    } else if s[0].key == key {
        0
    } else {
        1 + key_index(s.drop_first(), key)
    }
}

/// Keys are pairwise distinct.
pub open spec fn wf(s: Seq<EntryV>) -> bool {
    forall|i: int, j: int| 0 <= i < j < s.len() ==> s[i].key != s[j].key
}

/// The TTL state that a query for `key` reports.
pub open spec fn ttl_of(s: Seq<EntryV>, key: Seq<u8>) -> KeyTtl {
    if !has_key(s, key) {
        KeyTtl::Absent
    } else {
        match s[key_index(s, key)].ttl {
            Option::None => KeyTtl::Persistent,
            Option::Some(t) => KeyTtl::Expires(t),
        }
    }
}

/// The store after assigning `secs` as TTL of `key`, when present.
pub open spec fn set_ttl(s: Seq<EntryV>, key: Seq<u8>, secs: u64) -> Seq<EntryV> {
    if has_key(s, key) {
        s.update(key_index(s, key), EntryV { key: key, ttl: Some(secs) })
    } else {
        s
    }
}

pub proof fn lemma_key_index(s: Seq<EntryV>, key: Seq<u8>)
    ensures
        has_key(s, key) ==> 0 <= key_index(s, key) < s.len()
            && s[key_index(s, key)].key == key
            && (forall|j: int| 0 <= j < key_index(s, key) ==> s[j].key != key),
        !has_key(s, key) ==> key_index(s, key) == s.len(),
    decreases s.len(),
{
    if s.len() == 0 {
    } else if s[0].key == key {
    } else {
        let t = s.drop_first();
        lemma_key_index(t, key);
        assert(forall|i: int| 0 <= i < t.len() ==> t[i] == s[i + 1]);
        assert(key_index(s, key) == 1 + key_index(t, key));
        if has_key(s, key) {
            let w = choose|i: int| 0 <= i < s.len() && s[i].key == key;
            assert(t[w - 1] == s[w]);
            assert(has_key(t, key));
            let ki = key_index(t, key);
            assert(s[ki + 1] == t[ki]);
            assert forall|j: int| 0 <= j < ki + 1 implies s[j].key != key by {
                if j > 0 {
                    assert(t[j - 1] == s[j]);
                }
            }
        } else {
            if has_key(t, key) {
                let w = choose|i: int| 0 <= i < t.len() && t[i].key == key;
                assert(s[w + 1] == t[w]);
                assert(has_key(s, key));
            }
        }
    }
}

/// Under unique keys, any index carrying `key` is its `key_index`.
pub proof fn lemma_key_index_unique(s: Seq<EntryV>, key: Seq<u8>, i: int)
    requires
        wf(s),
        0 <= i < s.len(),
        s[i].key == key,
    ensures
        has_key(s, key),
        key_index(s, key) == i,
{
    assert(has_key(s, key));
    lemma_key_index(s, key);
}

/// Indices of the entries in `[lo, hi)` whose key matches the glob `pat`,
/// in increasing order.
pub open spec fn matching_indices(s: Seq<EntryV>, pat: Seq<u8>, lo: int, hi: int) -> Seq<int>
    decreases hi - lo,
{
    if lo >= hi {
        Seq::empty()
    } else if glob_match(pat, s[hi - 1].key) {
        matching_indices(s, pat, lo, hi - 1).push(hi - 1)
    } else {
        matching_indices(s, pat, lo, hi - 1)
    }
}

pub proof fn lemma_matching_indices(s: Seq<EntryV>, pat: Seq<u8>, lo: int, hi: int)
    requires
        0 <= lo <= hi <= s.len(),
    ensures
        (forall|j: int| 0 <= j < matching_indices(s, pat, lo, hi).len()
            ==> lo <= #[trigger] matching_indices(s, pat, lo, hi)[j] < hi
                && glob_match(pat, s[matching_indices(s, pat, lo, hi)[j]].key)),
        (forall|j1: int, j2: int| 0 <= j1 < j2 < matching_indices(s, pat, lo, hi).len()
            ==> matching_indices(s, pat, lo, hi)[j1] < matching_indices(s, pat, lo, hi)[j2]),
        (forall|i: int| lo <= i < hi && glob_match(pat, s[i].key)
            ==> matching_indices(s, pat, lo, hi).contains(i)),
    decreases hi - lo,
{
    if lo >= hi {
    } else {
        lemma_matching_indices(s, pat, lo, hi - 1);
        let prev = matching_indices(s, pat, lo, hi - 1);
        if glob_match(pat, s[hi - 1].key) {
            let cur = prev.push(hi - 1);
            assert(forall|j: int| 0 <= j < prev.len() ==> cur[j] == prev[j]);
            assert(cur[cur.len() - 1] == hi - 1);
            assert forall|i: int| lo <= i < hi && glob_match(pat, s[i].key)
                implies cur.contains(i) by {
                if i < hi - 1 {
                    assert(prev.contains(i));
                    let j = choose|j: int| 0 <= j < prev.len() && prev[j] == i;
                    assert(cur[j] == i);
                } else {
                    assert(cur[cur.len() - 1] == i);
                }
            }
        } else {
            assert forall|i: int| lo <= i < hi && glob_match(pat, s[i].key)
                implies prev.contains(i) by {
                assert(i != hi - 1);
            }
        }
    }
}

/// `matching_indices` depends only on the keys.
pub proof fn lemma_matching_indices_keys(s1: Seq<EntryV>, s2: Seq<EntryV>, pat: Seq<u8>, lo: int, hi: int)
    requires
        s1.len() == s2.len(),
        forall|i: int| 0 <= i < s1.len() ==> s1[i].key == s2[i].key,
        0 <= lo <= hi <= s1.len(),
    ensures
        matching_indices(s1, pat, lo, hi) == matching_indices(s2, pat, lo, hi),
    decreases hi - lo,
{
    if lo < hi {
        lemma_matching_indices_keys(s1, s2, pat, lo, hi - 1);
    }
}

/// End of the page that a scan at `cursor` with page size `batch` examines.
pub open spec fn scan_end(n: int, cursor: int, batch: int) -> int {
    if n - cursor < batch {
        n
    } else {
        cursor + batch
    }
}

/// In-memory model of the key-value store, as one session: a sequence of
/// keyed entries with optional TTLs, plus the session's fault mode.
pub struct Store {
    pub entries: Vec<Entry>,
    pub faults: FaultMode,
}

impl View for Store {
    type V = Seq<EntryV>;

    open spec fn view(&self) -> Seq<EntryV> {
        self.entries@.map_values(|e: Entry| e@)
    }
}

impl Store {
    /// A fresh, empty store session in the given fault mode.
    pub fn new(faults: FaultMode) -> (s: Store)
        ensures
            s@.len() == 0,
            s.faults == faults,
            wf(s@),
    {
        Store { entries: Vec::new(), faults }
    }

    /// Number of entries held.
    pub fn len(&self) -> (n: usize)
        ensures
            n == self@.len(),
    {
        self.entries.len()
    }

    /// Append an entry whose key is not yet present.
    pub fn append(&mut self, key: Vec<u8>, ttl: Option<u64>)
        requires
            !has_key(old(self)@, key@),
        ensures
            final(self)@ == old(self)@.push(EntryV { key: key@, ttl }),
            final(self).faults == old(self).faults,
            wf(old(self)@) ==> wf(final(self)@),
    {
        let ghost prev = self@;
        let ghost kv = key@;
        self.entries.push(Entry { key, ttl });
        proof {
            assert(self@ =~= prev.push(EntryV { key: kv, ttl }));
            if wf(prev) {
                assert forall|i: int, j: int| 0 <= i < j < self@.len()
                    implies self@[i].key != self@[j].key by {
                    if j == self@.len() - 1 {
                        assert(self@[j].key == kv);
                        assert(!(0 <= i < prev.len() && prev[i].key == kv));
                    }
                }
            }
        }
    }

    /// One page of a cursor scan: examines the entries in
    /// `[cursor, scan_end)`, returns the keys among them matching the glob
    /// `pattern`, and the next cursor, which is `0` exactly when the scan
    /// has reached the end of the keyspace.
    pub fn scan(&self, cursor: usize, pattern: &Vec<u8>, batch: usize) -> (r: Result<
        (usize, Vec<Vec<u8>>),
        StoreError,
    >)
        requires
            batch > 0,
            cursor <= self@.len(),
        ensures
            (match r {
                Result::Err(e) => self.faults == FaultMode::ScanFails && e == StoreError::Scan,
                Result::Ok((next, keys)) => {
                    let end = scan_end(self@.len() as int, cursor as int, batch as int);
                    let mi = matching_indices(self@, pattern@, cursor as int, end);
                    self.faults != FaultMode::ScanFails
                        && next as int == (if end == self@.len() { 0int } else { end })
                        && keys@.len() == mi.len()
                        && (forall|j: int| 0 <= j < mi.len() ==> keys@[j]@ == self@[mi[j]].key)
                },
            }),
    {
        if matches!(self.faults, FaultMode::ScanFails) {
            return Err(StoreError::Scan);
        }
        let n = self.entries.len();
        let end = if n - cursor < batch {
            n
        } else {
            cursor + batch
        };
        let mut keys: Vec<Vec<u8>> = Vec::new();
        let mut i = cursor;
        while i < end
            invariant
                cursor <= i <= end <= self@.len(),
                end == scan_end(self@.len() as int, cursor as int, batch as int),
                keys@.len() == matching_indices(self@, pattern@, cursor as int, i as int).len(),
                forall|j: int| 0 <= j < keys@.len()
                    ==> keys@[j]@ == self@[matching_indices(self@, pattern@, cursor as int, i as int)[j]].key,
            decreases end - i,
        {
            let ghost before = matching_indices(self@, pattern@, cursor as int, i as int);
            if glob_matches(pattern, &self.entries[i].key) {
                keys.push(self.entries[i].key.clone());
            }
            proof {
                let after = matching_indices(self@, pattern@, cursor as int, i + 1);
                if glob_match(pattern@, self@[i as int].key) {
                    assert(after == before.push(i as int));
                } else {
                    assert(after == before);
                }
            }
            i = i + 1;
        }
        let next = if end == n {
            0
        } else {
            end
        };
        Ok((next, keys))
    }

    /// TTL state of `key`: `Persistent` when the key has no expiration,
    /// `Expires` with the assigned TTL otherwise, `Absent` when unknown.
    pub fn get_ttl(&self, key: &Vec<u8>) -> (r: Result<KeyTtl, StoreError>)
        ensures
            (match r {
                Result::Err(e) => self.faults == FaultMode::TtlFails && e == StoreError::TtlQuery,
                Result::Ok(t) => self.faults != FaultMode::TtlFails && t == ttl_of(self@, key@),
            }),
    {
        if matches!(self.faults, FaultMode::TtlFails) {
            return Err(StoreError::TtlQuery);
        }
        let mut i: usize = 0;
        while i < self.entries.len()
            invariant
                i <= self@.len(),
                self.faults != FaultMode::TtlFails,
                forall|j: int| 0 <= j < i ==> self@[j].key != key@,
            decreases self@.len() - i,
        {
            if bytes_eq(&self.entries[i].key, key) {
                proof {
                    assert(self@[i as int] == self.entries@[i as int]@);
                    assert(self@[i as int].key == key@);
                    assert(has_key(self@, key@));
                    lemma_key_index(self@, key@);
                    assert(key_index(self@, key@) == i as int);
                }
                return Ok(
                    match self.entries[i].ttl {
                        Option::None => KeyTtl::Persistent,
                        Option::Some(t) => KeyTtl::Expires(t),
                    },
                );
            }
            proof {
                assert(self@[i as int] == self.entries@[i as int]@);
            }
            i = i + 1;
        }
        proof {
            assert(!has_key(self@, key@));
        }
        Ok(KeyTtl::Absent)
    }

    /// Assign `secs` as the TTL of `key`; reports whether the key was found.
    pub fn set_expire(&mut self, key: &Vec<u8>, secs: u64) -> (r: Result<bool, StoreError>)
        ensures
            final(self).faults == old(self).faults,
            (match r {
                Result::Err(e) => old(self).faults == FaultMode::ExpireFails
                    && e == StoreError::Expire
                    && final(self)@ == old(self)@,
                Result::Ok(found) => old(self).faults != FaultMode::ExpireFails
                    && found == has_key(old(self)@, key@)
                    && final(self)@ == set_ttl(old(self)@, key@, secs),
            }),
    {
        if matches!(self.faults, FaultMode::ExpireFails) {
            return Err(StoreError::Expire);
        }
        let ghost prev = self@;
        let mut i: usize = 0;
        let n = self.entries.len();
        while i < n
            invariant
                i <= n == self@.len(),
                prev == old(self)@,
                self@ == prev,
                self.faults == old(self).faults,
                old(self).faults != FaultMode::ExpireFails,
                forall|j: int| 0 <= j < i ==> self@[j].key != key@,
            decreases n - i,
        {
            if bytes_eq(&self.entries[i].key, key) {
                let replacement = Entry { key: self.entries[i].key.clone(), ttl: Some(secs) };
                proof {
                    assert(self@[i as int] == self.entries@[i as int]@);
                    assert(prev[i as int].key == key@);
                    assert(has_key(prev, key@));
                    lemma_key_index(prev, key@);
                    assert(key_index(prev, key@) == i as int);
                    assert(replacement@ == (EntryV { key: key@, ttl: Some(secs) }));
                }
                self.entries.set(i, replacement);
                proof {
                    assert(self@ =~= set_ttl(prev, key@, secs));
                }
                return Ok(true);
            }
            proof {
                assert(self@[i as int] == self.entries@[i as int]@);
            }
            i = i + 1;
        }
        proof {
            assert(!has_key(prev, key@));
        }
        Ok(false)
    }
}

} // verus!
