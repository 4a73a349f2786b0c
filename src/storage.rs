//! The store: values by key, each with an optional instant of expiry, evicted lazily on read.
//! Instants are milliseconds on a clock that the caller reads.

use vstd::prelude::*;

verus! {

/// A stored value and the instant after which it is gone, if it has one.
pub struct StorageEntry {
    pub expire_timestamp: Option<u64>,
    pub value: String,
}

/// What the store holds for a key: the value and its instant of expiry.
pub type EntryModel = (Seq<char>, Option<u64>);

impl View for StorageEntry {
    type V = EntryModel;

    open spec fn view(&self) -> EntryModel {
        (self.value@, self.expire_timestamp)
    }
}

impl StorageEntry {
    pub fn new(value: String, expire_timestamp: Option<u64>) -> (r: StorageEntry)
        ensures
            r@ == (value@, expire_timestamp),
    {
        StorageEntry { expire_timestamp, value }
    }
}

/// The instant of expiry for a value written at `now` with time to live `ttl_ms`: none
/// without a positive time to live; past the clock's range, the clock's last instant.
pub open spec fn expiry_of(now: u64, ttl_ms: Option<u64>) -> Option<u64> {
    match ttl_ms {
        Some(t) if t > 0 => Some(
            if now + t > u64::MAX {
                u64::MAX
            } else {
                (now + t) as u64
            },
        ),
        _ => None,
    }
}

/// Whether an entry with expiry `e` is gone at `now`: only strictly after its instant.
pub open spec fn is_expired(e: Option<u64>, now: u64) -> bool {
    match e {
        Some(t) => now > t,
        None => false,
    }
}

/// The store after writing `value` under `key` at `now`: the old entry, expiry included,
/// is replaced whole.
pub open spec fn stored(
    m: Map<Seq<char>, EntryModel>,
    key: Seq<char>,
    value: Seq<char>,
    ttl_ms: Option<u64>,
    now: u64,
) -> Map<Seq<char>, EntryModel> {
    m.insert(key, (value, expiry_of(now, ttl_ms)))
}

/// What a read of `key` at `now` returns.
pub open spec fn read(m: Map<Seq<char>, EntryModel>, key: Seq<char>, now: u64) -> Option<Seq<char>> {
    if m.contains_key(key) && !is_expired(m[key].1, now) {
        Some(m[key].0)
    } else {
        None
    }
}

/// The store after a read of `key` at `now`: an entry found expired is removed.
pub open spec fn after_read(m: Map<Seq<char>, EntryModel>, key: Seq<char>, now: u64) -> Map<
    Seq<char>,
    EntryModel,
> {
    if m.contains_key(key) && is_expired(m[key].1, now) {
        m.remove(key)
    } else {
        m
    }
}

/// A value written with a positive time to live reads back up to its expiry instant; a read
/// after that instant finds it absent, and removes the entry rather than hiding it.
pub proof fn lemma_ttl_expiry(
    m: Map<Seq<char>, EntryModel>,
    key: Seq<char>,
    value: Seq<char>,
    ttl_ms: u64,
    now: u64,
    later: u64,
)
    requires
        ttl_ms > 0,
        now + ttl_ms <= u64::MAX,
        now <= later,
    ensures
        later <= now + ttl_ms ==> read(stored(m, key, value, Some(ttl_ms), now), key, later) == Some(
            value,
        ),
        later > now + ttl_ms ==> read(stored(m, key, value, Some(ttl_ms), now), key, later) is None,
        later > now + ttl_ms ==> !after_read(
            stored(m, key, value, Some(ttl_ms), now),
            key,
            later,
        ).contains_key(key),
{
}

/// A value written without a time to live reads back at any later instant, and stays.
pub proof fn lemma_no_ttl_persists(
    m: Map<Seq<char>, EntryModel>,
    key: Seq<char>,
    value: Seq<char>,
    now: u64,
    later: u64,
)
    ensures
        read(stored(m, key, value, None, now), key, later) == Some(value),
        after_read(stored(m, key, value, None, now), key, later) == stored(m, key, value, None, now),
{
}

/// A write without a time to live wins over an earlier write with one, expired or not.
pub proof fn lemma_overwrite_clears_ttl(
    m: Map<Seq<char>, EntryModel>,
    key: Seq<char>,
    first: Seq<char>,
    ttl_ms: Option<u64>,
    t0: u64,
    second: Seq<char>,
    t1: u64,
    t2: u64,
)
    ensures
        read(stored(stored(m, key, first, ttl_ms, t0), key, second, None, t1), key, t2) == Some(
            second,
        ),
{
}

/// Writes and reads of one key leave every other key's entry, and what a read of it gives, as
/// they were.
pub proof fn lemma_distinct_keys_independent(
    m: Map<Seq<char>, EntryModel>,
    key: Seq<char>,
    other: Seq<char>,
    value: Seq<char>,
    ttl_ms: Option<u64>,
    now: u64,
    later: u64,
)
    requires
        key != other,
    ensures
        stored(m, key, value, ttl_ms, now).contains_key(other) == m.contains_key(other),
        m.contains_key(other) ==> stored(m, key, value, ttl_ms, now)[other] == m[other],
        after_read(m, key, now).contains_key(other) == m.contains_key(other),
        m.contains_key(other) ==> after_read(m, key, now)[other] == m[other],
        read(stored(m, key, value, ttl_ms, now), other, later) == read(m, other, later),
        read(after_read(m, key, now), other, later) == read(m, other, later),
{
}

/// The store: each key once, with its entry.
pub struct Storage {
    keys: Vec<String>,
    entries: Vec<StorageEntry>,
    contents: Ghost<Map<Seq<char>, EntryModel>>,
}

impl View for Storage {
    type V = Map<Seq<char>, EntryModel>;

    closed spec fn view(&self) -> Map<Seq<char>, EntryModel> {
        self.contents@
    }
}

impl Storage {
    /// The keys are distinct and the entries are those of the map.
    pub closed spec fn wf(&self) -> bool {
        &&& self.keys.len() == self.entries.len()
        &&& forall|i: int, j: int|
            0 <= i < j < self.keys.len() ==> self.keys[i]@ != self.keys[j]@
        &&& forall|i: int|
            0 <= i < self.keys.len() ==> #[trigger] self.contents@.contains_key(self.keys[i]@)
                && self.contents@[self.keys[i]@] == self.entries[i]@
        &&& forall|k: Seq<char>|
            #[trigger] self.contents@.contains_key(k) ==> exists|i: int|
                0 <= i < self.keys.len() && self.keys[i]@ == k
    }

    /// An empty store.
    pub fn new() -> (r: Storage)
        ensures
            r.wf(),
            r@ == Map::<Seq<char>, EntryModel>::empty(),
    {
        Storage { keys: Vec::new(), entries: Vec::new(), contents: Ghost(Map::empty()) }
    }

    /// Where `key` stands, if it is held.
    fn find(&self, key: &String) -> (r: Option<usize>)
        requires
            self.wf(),
        ensures
            r is Some <==> self@.contains_key(key@),
            r is Some ==> r->0 < self.keys.len() && self.keys[r->0 as int]@ == key@,
    {
        let mut i: usize = 0;
        while i < self.keys.len()
            invariant
                self.wf(),
                i <= self.keys.len(),
                forall|j: int| 0 <= j < i ==> self.keys[j]@ != key@,
            decreases self.keys.len() - i,
        {
            if self.keys[i] == *key {
                return Some(i);
            }
            i += 1;
        }
        None
    }

    /// Drops the entry at position `i`.
    fn remove_at(&mut self, i: usize)
        requires
            old(self).wf(),
            i < old(self).keys.len(),
        ensures
            final(self).wf(),
            final(self)@ == old(self)@.remove(old(self).keys[i as int]@),
    {
        let ghost k = self.keys[i as int]@;
        let ghost old_keys = self.keys@;
        self.keys.remove(i);
        self.entries.remove(i);
        self.contents = Ghost(self.contents@.remove(k));
        assert forall|x: Seq<char>| #[trigger] self.contents@.contains_key(x) implies exists|j: int|
            0 <= j < self.keys.len() && self.keys[j]@ == x by {
            let j = choose|j: int| 0 <= j < old_keys.len() && old_keys[j]@ == x;
            if j < i {
                assert(self.keys[j]@ == x);
            } else {
                assert(self.keys[j - 1]@ == x);
            }
        }
    }

    /// Whether the store holds an entry for `key`, expired or not.
    pub fn contains_key(&self, key: &String) -> (r: bool)
        requires
            self.wf(),
        ensures
            r == self@.contains_key(key@),
    {
        self.find(key).is_some()
    }

    /// Writes `value` under `key` at instant `now_ms`, replacing any entry that was there.
    pub fn set(&mut self, key: String, value: String, ttl_ms: Option<u64>, now_ms: u64)
        requires
            old(self).wf(),
        ensures
            final(self).wf(),
            final(self)@ == stored(old(self)@, key@, value@, ttl_ms, now_ms),
    {
        if let Some(i) = self.find(&key) {
            self.remove_at(i);
        }
        let expiry = match ttl_ms {
            Some(t) if t > 0 => Some(
                if t > u64::MAX - now_ms {
                    u64::MAX
                } else {
                    now_ms + t
                },
            ),
            _ => None,
        };
        let ghost k = key@;
        let ghost before = self.contents@;
        assert(!before.contains_key(k));
        let entry = StorageEntry::new(value, expiry);
        let ghost e = entry@;
        let ghost prev = self.keys@;
        self.keys.push(key);
        self.entries.push(entry);
        self.contents = Ghost(self.contents@.insert(k, e));
        assert forall|i: int, j: int|
            0 <= i < j < self.keys.len() implies self.keys[i]@ != self.keys[j]@ by {
            assert(self.keys[i] == prev[i]);
            if j == prev.len() {
                assert(before.contains_key(prev[i]@));
            } else {
                assert(self.keys[j] == prev[j]);
            }
        }
        assert forall|i: int| 0 <= i < self.keys.len() implies #[trigger] self.contents@.contains_key(
            self.keys[i]@,
        ) && self.contents@[self.keys[i]@] == self.entries[i]@ by {
            if i < prev.len() {
                assert(self.keys[i] == prev[i]);
                assert(before.contains_key(prev[i]@));
            }
        }
        assert forall|x: Seq<char>| #[trigger] self.contents@.contains_key(x) implies exists|j: int|
            0 <= j < self.keys.len() && self.keys[j]@ == x by {
            if x != k {
                let j = choose|j: int| 0 <= j < prev.len() && prev[j]@ == x;
                assert(self.keys[j]@ == x);
            } else {
                assert(self.keys[prev.len() as int]@ == x);
            }
        }
    }

    /// Reads `key` at instant `now_ms`. An entry past its expiry is removed and reads as absent.
    pub fn get(&mut self, key: &String, now_ms: u64) -> (r: Option<String>)
        requires
            old(self).wf(),
        ensures
            final(self).wf(),
            r is Some <==> read(old(self)@, key@, now_ms) is Some,
            r is Some ==> read(old(self)@, key@, now_ms) == Some(r->0@),
            final(self)@ == after_read(old(self)@, key@, now_ms),
    {
        match self.find(key) {
            None => None,
            Some(i) => {
                let expired = match self.entries[i].expire_timestamp {
                    Some(t) => now_ms > t,
                    None => false,
                };
                if expired {
                    self.remove_at(i);
                    None
                } else {
                    Some(self.entries[i].value.clone())
                }
            },
        }
    }
}

} // verus!
