//! The expiring key-value store: a sequence of entries with distinct keys,
//! each holding a value and an optional absolute expiration instant.
//!
//! Time never enters the store on its own: every time-sensitive operation
//! takes the current instant `now` (seconds) as an argument, so the whole
//! store is a pure state machine over plain values.

use vstd::prelude::*;

verus! {

/// One stored entry: a key, its value, and the instant at which it expires.
/// `expires_at == None` means the entry never expires.
pub struct Entry {
    pub key: Vec<u8>,
    pub value: Vec<u8>,
    pub expires_at: Option<u64>,
}

/// The mathematical image of an [`Entry`].
pub struct Rec {
    pub key: Seq<u8>,
    pub value: Seq<u8>,
    pub expires_at: Option<u64>,
}

impl View for Entry {
    type V = Rec;

    open spec fn view(&self) -> Rec {
        Rec { key: self.key@, value: self.value@, expires_at: self.expires_at }
    }
}

/// An entry is live at `now` when its expiration lies strictly in the future,
/// or when it never expires.
pub open spec fn live(e: Rec, now: u64) -> bool {
    match e.expires_at {
        None => true,
        Some(t) => now < t,
    }
}

/// Whether some entry of `s` has key `k`.
pub open spec fn has_key(s: Seq<Rec>, k: Seq<u8>) -> bool {
    exists|i: int| 0 <= i < s.len() && s[i].key == k
}

/// The index of the entry with key `k` (meaningful under [`distinct_keys`]).
pub open spec fn key_index(s: Seq<Rec>, k: Seq<u8>) -> int {
    choose|i: int| 0 <= i < s.len() && s[i].key == k
}

/// No two entries share a key.
pub open spec fn distinct_keys(s: Seq<Rec>) -> bool {
    forall|i: int, j: int| 0 <= i < j < s.len() ==> s[i].key != s[j].key
}

/// The store of entries. Its invariant is [`KeyValueStore::wf`]: keys are
/// distinct, so the entry sequence denotes a finite map ordered by storage
/// position.
pub struct KeyValueStore {
    entries: Vec<Entry>,
}

impl View for KeyValueStore {
    type V = Seq<Rec>;

    closed spec fn view(&self) -> Seq<Rec> {
        self.entries@.map_values(|e: Entry| e@)
    }
}

impl KeyValueStore {
    /// Well-formedness: no key occurs twice.
    pub open spec fn wf(&self) -> bool {
        distinct_keys(self@)
    }

    /// An empty store.
    pub fn new() -> (r: Self)
        ensures
            r@ == Seq::<Rec>::empty(),
            r.wf(),
    {
        let r = KeyValueStore { entries: Vec::new() };
        proof {
            assert(r@ =~= Seq::<Rec>::empty());
        }
        r
    }
}

/// Addition on instants, clamped to the end of time instead of wrapping.
pub open spec fn sat_add(a: u64, b: u64) -> u64 {
    if a + b <= u64::MAX {
        (a + b) as u64
    } else {
        u64::MAX
    }
}

/// The expiration instant of an entry set at `now` with time-to-live `ttl`:
/// `now + ttl` seconds, or never when no ttl is given.
pub open spec fn expiry(ttl: Option<u64>, now: u64) -> Option<u64> {
    match ttl {
        None => None,
        Some(t) => Some(sat_add(now, t)),
    }
}

/// The store after `set(k, v, ttl)` at `now`: the entry for `k` is replaced
/// in place when present, appended otherwise.
pub open spec fn set_spec(s: Seq<Rec>, k: Seq<u8>, v: Seq<u8>, ttl: Option<u64>, now: u64) -> Seq<
    Rec,
> {
    let r = Rec { key: k, value: v, expires_at: expiry(ttl, now) };
    if has_key(s, k) {
        s.update(key_index(s, k), r)
    } else {
        s.push(r)
    }
}

/// What `get(k)` at `now` returns: the value when `k` is present and live,
/// absent otherwise.
pub open spec fn get_result(s: Seq<Rec>, k: Seq<u8>, now: u64) -> Option<Seq<u8>> {
    if has_key(s, k) && live(s[key_index(s, k)], now) {
        Some(s[key_index(s, k)].value)
    } else {
        None
    }
}

/// The store after `get(k)` at `now`: an entry found expired is removed
/// (lazy expiration); nothing else changes.
pub open spec fn get_after(s: Seq<Rec>, k: Seq<u8>, now: u64) -> Seq<Rec> {
    if has_key(s, k) && !live(s[key_index(s, k)], now) {
        s.remove(key_index(s, k))
    } else {
        s
    }
}

/// The store after `delete(k)`: the entry for `k` is removed whether or not
/// it has expired.
pub open spec fn del_after(s: Seq<Rec>, k: Seq<u8>) -> Seq<Rec> {
    if has_key(s, k) {
        s.remove(key_index(s, k))
    } else {
        s
    }
}

/// The entries of `s` that are live at `now`, in storage order.
pub open spec fn live_entries(s: Seq<Rec>, now: u64) -> Seq<Rec>
    decreases s.len(),
{
    if s.len() == 0 {
        Seq::empty()
    } else if live(s.last(), now) {
        live_entries(s.drop_last(), now).push(s.last())
    } else {
        live_entries(s.drop_last(), now)
    }
}

/// The keys of the entries of `s` that are live at `now`, in storage order.
pub open spec fn live_keys(s: Seq<Rec>, now: u64) -> Seq<Seq<u8>> {
    live_entries(s, now).map_values(|e: Rec| e.key)
}

impl KeyValueStore {
    /// Stores `value` under `key`, expiring `ttl` seconds after `now`
    /// (never, when no ttl is given). Overwrites any entry for `key`,
    /// value and expiration both.
    #[verifier::loop_isolation(false)]
    pub fn set(&mut self, key: Vec<u8>, value: Vec<u8>, ttl: Option<u64>, now: u64)
        requires
            old(self).wf(),
        ensures
            final(self).wf(),
            final(self)@ == set_spec(old(self)@, key@, value@, ttl, now),
    {
        let expires_at = match ttl {
            None => None,
            Some(t) => {
                if now <= u64::MAX - t {
                    Some(now + t)
                } else {
                    Some(u64::MAX)
                }
            },
        };
        let ghost s = old(self)@;
        let ghost r = Rec { key: key@, value: value@, expires_at: expiry(ttl, now) };
        let mut i: usize = 0;
        while i < self.entries.len()
            invariant
                self@ == s,
                i <= s.len(),
                distinct_keys(s),
                expires_at == expiry(ttl, now),
                forall|j: int| 0 <= j < i ==> s[j].key != key@,
            decreases self.entries.len() - i,
        {
            if bytes_eq(self.entries[i].key.as_slice(), key.as_slice()) {
                proof {
                    assert(s[i as int].key == key@);
                    assert(has_key(s, key@));
                    let ki = key_index(s, key@);
                    assert(s[ki].key == key@);
                    assert(ki == i as int);
                }
                let e = Entry { key, value, expires_at };
                self.entries.remove(i);
                self.entries.insert(i, e);
                proof {
                    assert(self@ =~= s.update(i as int, r));
                    assert(forall|j: int|
                        0 <= j < self@.len() && j != i ==> self@[j] == s[j]);
                    assert(distinct_keys(self@));
                }
                return;
            }
            i += 1;
        }
        proof {
            assert(forall|j: int| 0 <= j < s.len() ==> s[j].key != key@);
            assert(!has_key(s, key@));
        }
        let e = Entry { key, value, expires_at };
        self.entries.push(e);
        proof {
            assert(self@ =~= s.push(r));
            assert(forall|j: int| 0 <= j < s.len() ==> self@[j] == s[j]);
            assert(distinct_keys(self@));
        }
    }

    /// Looks `key` up at instant `now`. Returns its value while the entry is
    /// live; an entry found expired is removed as a side effect and the
    /// lookup reports absence.
    #[verifier::loop_isolation(false)]
    pub fn get(&mut self, key: &[u8], now: u64) -> (r: Option<Vec<u8>>)
        requires
            old(self).wf(),
        ensures
            final(self).wf(),
            final(self)@ == get_after(old(self)@, key@, now),
            match r {
                Some(v) => get_result(old(self)@, key@, now) == Some(v@),
                None => get_result(old(self)@, key@, now) is None,
            },
    {
        let ghost s = old(self)@;
        let mut i: usize = 0;
        while i < self.entries.len()
            invariant
                self@ == s,
                i <= s.len(),
                distinct_keys(s),
                forall|j: int| 0 <= j < i ==> s[j].key != key@,
            decreases self.entries.len() - i,
        {
            if bytes_eq(self.entries[i].key.as_slice(), key) {
                proof {
                    assert(s[i as int].key == key@);
                    assert(has_key(s, key@));
                    let ki = key_index(s, key@);
                    assert(s[ki].key == key@);
                    assert(ki == i as int);
                }
                let e = &self.entries[i];
                let is_live = match e.expires_at {
                    None => true,
                    Some(t) => now < t,
                };
                if is_live {
                    return Some(clone_bytes(self.entries[i].value.as_slice()));
                } else {
                    self.entries.remove(i);
                    proof {
                        assert(self@ =~= s.remove(i as int));
                        assert(forall|j: int|
                            0 <= j < self@.len() ==> (self@[j] == s[j] || self@[j] == s[j + 1]));
                        assert(distinct_keys(self@));
                    }
                    return None;
                }
            }
            i += 1;
        }
        proof {
            assert(!has_key(s, key@));
        }
        None
    }

    /// Removes `key` if present, expired or not, and reports whether an
    /// entry was there.
    #[verifier::loop_isolation(false)]
    pub fn delete(&mut self, key: &[u8]) -> (r: bool)
        requires
            old(self).wf(),
        ensures
            final(self).wf(),
            final(self)@ == del_after(old(self)@, key@),
            r == has_key(old(self)@, key@),
    {
        let ghost s = old(self)@;
        let mut i: usize = 0;
        while i < self.entries.len()
            invariant
                self@ == s,
                i <= s.len(),
                distinct_keys(s),
                forall|j: int| 0 <= j < i ==> s[j].key != key@,
            decreases self.entries.len() - i,
        {
            if bytes_eq(self.entries[i].key.as_slice(), key) {
                proof {
                    assert(s[i as int].key == key@);
                    assert(has_key(s, key@));
                    let ki = key_index(s, key@);
                    assert(s[ki].key == key@);
                    assert(ki == i as int);
                }
                self.entries.remove(i);
                proof {
                    assert(self@ =~= s.remove(i as int));
                    assert(forall|j: int|
                        0 <= j < self@.len() ==> (self@[j] == s[j] || self@[j] == s[j + 1]));
                    assert(distinct_keys(self@));
                }
                return true;
            }
            i += 1;
        }
        proof {
            assert(!has_key(s, key@));
        }
        false
    }
}

/// Every entry of `live_entries(s, now)` is an entry of `s` that is live at
/// `now`, and conversely.
pub proof fn lemma_live_entries_membership(s: Seq<Rec>, now: u64)
    ensures
        forall|e: Rec| #![auto] live_entries(s, now).contains(e) <==> s.contains(e) && live(e, now),
    decreases s.len(),
{
    if s.len() > 0 {
        lemma_live_entries_membership(s.drop_last(), now);
        assert forall|e: Rec| #![auto] s.contains(e) <==> (s.drop_last().contains(e) || e
            == s.last()) by {
            if s.contains(e) {
                let i = choose|i: int| 0 <= i < s.len() && s[i] == e;
                if i < s.len() - 1 {
                    assert(s.drop_last()[i] == e);
                }
            }
            if s.drop_last().contains(e) {
                let i = choose|i: int| 0 <= i < s.drop_last().len() && s.drop_last()[i] == e;
                assert(s[i] == e);
            }
        }
        let t = live_entries(s.drop_last(), now);
        if live(s.last(), now) {
            assert forall|e: Rec| #![auto] t.push(s.last()).contains(e) <==> (t.contains(e) || e
                == s.last()) by {
                if t.push(s.last()).contains(e) {
                    let i = choose|i: int| 0 <= i < t.push(s.last()).len() && t.push(s.last())[i]
                        == e;
                    if i < t.len() {
                        assert(t[i] == e);
                    }
                }
                if t.contains(e) {
                    let i = choose|i: int| 0 <= i < t.len() && t[i] == e;
                    assert(t.push(s.last())[i] == e);
                }
                assert(t.push(s.last())[t.len() as int] == s.last());
            }
        }
    }
}

/// Filtering to the live entries keeps keys distinct.
pub proof fn lemma_live_entries_distinct(s: Seq<Rec>, now: u64)
    requires
        distinct_keys(s),
    ensures
        distinct_keys(live_entries(s, now)),
    decreases s.len(),
{
    if s.len() > 0 {
        assert(distinct_keys(s.drop_last()));
        lemma_live_entries_distinct(s.drop_last(), now);
        lemma_live_entries_membership(s.drop_last(), now);
        let t = live_entries(s.drop_last(), now);
        if live(s.last(), now) {
            assert forall|i: int| 0 <= i < t.len() implies t[i].key != s.last().key by {
                assert(t.contains(t[i]));
                assert(s.drop_last().contains(t[i]));
                let j = choose|j: int| 0 <= j < s.drop_last().len() && s.drop_last()[j] == t[i];
                assert(s.drop_last()[j] == s[j]);
                assert(s[j] == t[i]);
                assert(s[j].key != s[s.len() - 1].key);
            }
            let u = t.push(s.last());
            assert forall|i: int, j: int| 0 <= i < j < u.len() implies u[i].key != u[j].key by {
                if j < t.len() {
                    assert(u[i] == t[i] && u[j] == t[j]);
                } else {
                    assert(u[j] == s.last());
                    assert(u[i] == t[i]);
                }
            }
        }
    }
}

/// A key is listed among the live keys exactly when its entry is present
/// and live.
pub proof fn lemma_live_keys_iff(s: Seq<Rec>, now: u64, k: Seq<u8>)
    requires
        distinct_keys(s),
    ensures
        live_keys(s, now).contains(k) <==> (has_key(s, k) && live(s[key_index(s, k)], now)),
        has_key(live_entries(s, now), k) <==> (has_key(s, k) && live(s[key_index(s, k)], now)),
{
    lemma_live_entries_membership(s, now);
    let t = live_entries(s, now);
    assert(live_keys(s, now) == t.map_values(|e: Rec| e.key));
    if has_key(t, k) {
        let i = choose|i: int| 0 <= i < t.len() && t[i].key == k;
        assert(t.contains(t[i]));
        assert(s.contains(t[i]) && live(t[i], now));
        let j = choose|j: int| 0 <= j < s.len() && s[j] == t[i];
        assert(s[j].key == k);
        assert(has_key(s, k));
        let ki = key_index(s, k);
        assert(s[ki].key == k);
        assert(ki == j);
        assert(live(s[ki], now));
    }
    if has_key(s, k) && live(s[key_index(s, k)], now) {
        let ki = key_index(s, k);
        assert(s[ki] == s[ki]);
        assert(s.contains(s[ki]));
        assert(t.contains(s[ki]));
        let i = choose|i: int| 0 <= i < t.len() && t[i] == s[ki];
        assert(t[i].key == k);
        assert(has_key(t, k));
    }
    if has_key(t, k) {
        let i = choose|i: int| 0 <= i < t.len() && t[i].key == k;
        assert(t.map_values(|e: Rec| e.key)[i] == k);
        assert(live_keys(s, now).contains(k));
    }
    if live_keys(s, now).contains(k) {
        let i = choose|i: int| 0 <= i < live_keys(s, now).len() && #[trigger] live_keys(s, now)[i]
            == k;
        assert(t[i].key == k);
        assert(has_key(t, k));
    }
}

/// One step of a scan: extending the scanned prefix by one entry extends
/// the live entries (and keys) exactly when that entry is live.
pub proof fn lemma_live_step(s: Seq<Rec>, now: u64, i: int)
    requires
        0 <= i < s.len(),
    ensures
        live(s[i], now) ==> live_entries(s.take(i + 1), now) == live_entries(s.take(i), now).push(
            s[i],
        ),
        !live(s[i], now) ==> live_entries(s.take(i + 1), now) == live_entries(s.take(i), now),
        live(s[i], now) ==> live_keys(s.take(i + 1), now) == live_keys(s.take(i), now).push(
            s[i].key,
        ),
        !live(s[i], now) ==> live_keys(s.take(i + 1), now) == live_keys(s.take(i), now),
{
    assert(s.take(i + 1).drop_last() =~= s.take(i));
    assert(s.take(i + 1).last() == s[i]);
    if live(s[i], now) {
        assert(live_entries(s.take(i + 1), now) == live_entries(s.take(i), now).push(s[i]));
        assert(live_entries(s.take(i), now).push(s[i]).map_values(|e: Rec| e.key)
            =~= live_entries(s.take(i), now).map_values(|e: Rec| e.key).push(s[i].key));
    }
}

impl KeyValueStore {
    /// The number of entries held, expired ones included: the introspection
    /// hook for observing that sweeping reclaims storage.
    pub fn len(&self) -> (r: usize)
        ensures
            r == self@.len(),
    {
        self.entries.len()
    }

    /// Lists the keys of all live entries, in storage order, and removes
    /// every entry found expired.
    #[verifier::loop_isolation(false)]
    pub fn get_all(&mut self, now: u64) -> (keys: Vec<Vec<u8>>)
        requires
            old(self).wf(),
        ensures
            final(self).wf(),
            final(self)@ == live_entries(old(self)@, now),
            keys@.map_values(|v: Vec<u8>| v@) == live_keys(old(self)@, now),
    {
        let ghost s = old(self)@;
        let mut kept: Vec<Entry> = Vec::new();
        let mut keys: Vec<Vec<u8>> = Vec::new();
        let mut i: usize = 0;
        while i < self.entries.len()
            invariant
                self@ == s,
                i <= s.len(),
                kept@.map_values(|e: Entry| e@) == live_entries(s.take(i as int), now),
                keys@.map_values(|v: Vec<u8>| v@) == live_keys(s.take(i as int), now),
            decreases self.entries.len() - i,
        {
            let e = &self.entries[i];
            let is_live = match e.expires_at {
                None => true,
                Some(t) => now < t,
            };
            proof {
                lemma_live_step(s, now, i as int);
            }
            if is_live {
                let ghost kept0 = kept@;
                let ghost keys0 = keys@;
                let kc = clone_bytes(e.key.as_slice());
                let vc = clone_bytes(e.value.as_slice());
                let exp = e.expires_at;
                let k2 = clone_bytes(self.entries[i].key.as_slice());
                keys.push(kc);
                kept.push(Entry { key: k2, value: vc, expires_at: exp });
                proof {
                    assert(kept@ == kept0.push(kept@.last()));
                    assert(kept@.last()@ == s[i as int]);
                    assert(kept@.map_values(|e: Entry| e@) =~= kept0.map_values(|e: Entry| e@).push(
                        s[i as int],
                    ));
                    assert(keys@ == keys0.push(keys@.last()));
                    assert(keys@.last()@ == s[i as int].key);
                    assert(keys@.map_values(|v: Vec<u8>| v@) =~= keys0.map_values(
                        |v: Vec<u8>| v@,
                    ).push(s[i as int].key));
                }
            }
            i += 1;
        }
        proof {
            assert(s.take(s.len() as int) =~= s);
            lemma_live_entries_distinct(s, now);
        }
        self.entries = kept;
        keys
    }

    /// Removes every entry that has expired as of `now`; live entries are
    /// untouched. Idempotent, and a no-op when nothing has expired.
    #[verifier::loop_isolation(false)]
    pub fn clean_expired(&mut self, now: u64)
        requires
            old(self).wf(),
        ensures
            final(self).wf(),
            final(self)@ == live_entries(old(self)@, now),
    {
        let ghost s = old(self)@;
        let mut kept: Vec<Entry> = Vec::new();
        let mut i: usize = 0;
        while i < self.entries.len()
            invariant
                self@ == s,
                i <= s.len(),
                kept@.map_values(|e: Entry| e@) == live_entries(s.take(i as int), now),
            decreases self.entries.len() - i,
        {
            let e = &self.entries[i];
            let is_live = match e.expires_at {
                None => true,
                Some(t) => now < t,
            };
            proof {
                lemma_live_step(s, now, i as int);
            }
            if is_live {
                let ghost kept0 = kept@;
                let kc = clone_bytes(e.key.as_slice());
                let vc = clone_bytes(e.value.as_slice());
                let exp = e.expires_at;
                kept.push(Entry { key: kc, value: vc, expires_at: exp });
                proof {
                    assert(kept@ == kept0.push(kept@.last()));
                    assert(kept@.last()@ == s[i as int]);
                    assert(kept@.map_values(|e: Entry| e@) =~= kept0.map_values(|e: Entry| e@).push(
                        s[i as int],
                    ));
                }
            }
            i += 1;
        }
        proof {
            assert(s.take(s.len() as int) =~= s);
            lemma_live_entries_distinct(s, now);
        }
        self.entries = kept;
    }
}

/// After a set, the key's entry holds exactly the new value and the new
/// expiration, and keys stay distinct.
pub proof fn lemma_set_spec_lookup(s: Seq<Rec>, k: Seq<u8>, v: Seq<u8>, ttl: Option<u64>, now: u64)
    requires
        distinct_keys(s),
    ensures
        ({
            let s2 = set_spec(s, k, v, ttl, now);
            &&& distinct_keys(s2)
            &&& has_key(s2, k)
            &&& s2[key_index(s2, k)] == Rec { key: k, value: v, expires_at: expiry(ttl, now) }
        }),
{
    let r = Rec { key: k, value: v, expires_at: expiry(ttl, now) };
    let s2 = set_spec(s, k, v, ttl, now);
    if has_key(s, k) {
        let ki = key_index(s, k);
        assert(s[ki].key == k);
        assert(s2 == s.update(ki, r));
        assert(s2[ki] == r);
        assert(has_key(s2, k));
        assert forall|i: int, j: int| 0 <= i < j < s2.len() implies s2[i].key != s2[j].key by {
            assert(i != ki ==> s2[i] == s[i]);
            assert(j != ki ==> s2[j] == s[j]);
        }
        let ki2 = key_index(s2, k);
        assert(s2[ki2].key == k);
        assert(ki2 == ki);
    } else {
        assert(s2 == s.push(r));
        assert(s2[s.len() as int] == r);
        assert(has_key(s2, k));
        assert forall|i: int, j: int| 0 <= i < j < s2.len() implies s2[i].key != s2[j].key by {
            if j < s.len() {
                assert(s2[i] == s[i] && s2[j] == s[j]);
            } else {
                assert(s2[j] == r);
                assert(s2[i] == s[i]);
                assert(s[i].key != k);
            }
        }
        let ki2 = key_index(s2, k);
        assert(s2[ki2].key == k);
        assert(ki2 == s.len());
    }
}

/// Removing a key removes it for good: it is no longer present, and keys
/// stay distinct.
pub proof fn lemma_del_after_removes(s: Seq<Rec>, k: Seq<u8>)
    requires
        distinct_keys(s),
    ensures
        distinct_keys(del_after(s, k)),
        !has_key(del_after(s, k), k),
{
    let s2 = del_after(s, k);
    if has_key(s, k) {
        let ki = key_index(s, k);
        assert(s[ki].key == k);
        assert(s2 == s.remove(ki));
        assert forall|j: int| 0 <= j < s2.len() implies (s2[j] == s[j] || s2[j] == s[j + 1]) by {}
        assert forall|j: int| 0 <= j < s2.len() implies s2[j].key != k by {
            if j < ki {
                assert(s2[j] == s[j]);
                assert(s[j].key != s[ki].key);
            } else {
                assert(s2[j] == s[j + 1]);
                assert(s[j + 1].key != s[ki].key);
            }
        }
        assert forall|i: int, j: int| 0 <= i < j < s2.len() implies s2[i].key != s2[j].key by {
            let i0: int = if i < ki {
                i
            } else {
                i + 1
            };
            let j0: int = if j < ki {
                j
            } else {
                j + 1
            };
            assert(s2[i] == s[i0] && s2[j] == s[j0]);
        }
    }
}

/// Time-to-live correctness: after `set(k, v, ttl = t)` at instant `now0`,
/// a read strictly before `now0 + t` returns `v`, and a read at or past
/// `now0 + t` finds nothing.
pub proof fn lemma_ttl_correctness(
    s: Seq<Rec>,
    k: Seq<u8>,
    v: Seq<u8>,
    t: u64,
    now0: u64,
    now: u64,
)
    requires
        distinct_keys(s),
    ensures
        now < sat_add(now0, t) ==> get_result(set_spec(s, k, v, Some(t), now0), k, now) == Some(v),
        now >= sat_add(now0, t) ==> get_result(set_spec(s, k, v, Some(t), now0), k, now) is None,
{
    lemma_set_spec_lookup(s, k, v, Some(t), now0);
}

/// Overwrite semantics: setting the same key twice replaces value and
/// expiration both, and a read after the second set never returns the
/// first set's value.
pub proof fn lemma_overwrite(
    s: Seq<Rec>,
    k: Seq<u8>,
    v1: Seq<u8>,
    ttl1: Option<u64>,
    now1: u64,
    v2: Seq<u8>,
    ttl2: Option<u64>,
    now2: u64,
    now: u64,
)
    requires
        distinct_keys(s),
    ensures
        ({
            let s2 = set_spec(set_spec(s, k, v1, ttl1, now1), k, v2, ttl2, now2);
            &&& has_key(s2, k)
            &&& s2[key_index(s2, k)] == Rec { key: k, value: v2, expires_at: expiry(ttl2, now2) }
            &&& (v1 != v2 ==> get_result(s2, k, now) != Some(v1))
        }),
{
    lemma_set_spec_lookup(s, k, v1, ttl1, now1);
    lemma_set_spec_lookup(set_spec(s, k, v1, ttl1, now1), k, v2, ttl2, now2);
}

/// Delete idempotence: deleting an absent key reports absence and changes
/// nothing; once a key is deleted, a later read finds nothing and a later
/// delete reports absence.
pub proof fn lemma_delete_idempotence(s: Seq<Rec>, k: Seq<u8>, now: u64)
    requires
        distinct_keys(s),
    ensures
        !has_key(s, k) ==> del_after(s, k) == s,
        !has_key(del_after(s, k), k),
        get_result(del_after(s, k), k, now) is None,
{
    lemma_del_after_removes(s, k);
}

/// Listing excludes expired entries: a live key is listed, an expired one
/// is not, and after the listing has purged it the expired key stays
/// excluded at every later instant.
pub proof fn lemma_listing_excludes_expired(
    s: Seq<Rec>,
    now: u64,
    later: u64,
    ka: Seq<u8>,
    kb: Seq<u8>,
)
    requires
        distinct_keys(s),
        has_key(s, ka),
        live(s[key_index(s, ka)], now),
        has_key(s, kb),
        !live(s[key_index(s, kb)], now),
    ensures
        live_keys(s, now).contains(ka),
        !live_keys(s, now).contains(kb),
        !has_key(live_entries(s, now), kb),
        !live_keys(live_entries(s, now), later).contains(kb),
{
    lemma_live_keys_iff(s, now, ka);
    lemma_live_keys_iff(s, now, kb);
    lemma_live_entries_distinct(s, now);
    lemma_live_keys_iff(live_entries(s, now), later, kb);
}

/// A sequence whose entries are all live is left unchanged by the filter.
proof fn lemma_live_entries_all_live(t: Seq<Rec>, now: u64)
    requires
        forall|i: int| 0 <= i < t.len() ==> live(#[trigger] t[i], now),
    ensures
        live_entries(t, now) == t,
    decreases t.len(),
{
    if t.len() > 0 {
        assert(forall|i: int|
            0 <= i < t.drop_last().len() ==> live(#[trigger] t.drop_last()[i], now));
        lemma_live_entries_all_live(t.drop_last(), now);
        assert(live(t.last(), now));
        assert(live_entries(t, now) =~= t.drop_last().push(t.last()));
        assert(t.drop_last().push(t.last()) =~= t);
    }
}

/// Sweep convergence: after a sweep no expired entry remains, and sweeping
/// again at the same instant changes nothing.
pub proof fn lemma_sweep_convergence(s: Seq<Rec>, now: u64)
    ensures
        forall|i: int|
            0 <= i < live_entries(s, now).len() ==> live(#[trigger] live_entries(s, now)[i], now),
        live_entries(live_entries(s, now), now) == live_entries(s, now),
{
    lemma_live_entries_membership(s, now);
    let t = live_entries(s, now);
    assert forall|i: int| 0 <= i < t.len() implies live(#[trigger] t[i], now) by {
        assert(t.contains(t[i]));
    }
    lemma_live_entries_all_live(t, now);
}

/// Byte-string equality, stated over the views.
pub fn bytes_eq(a: &[u8], b: &[u8]) -> (r: bool)
    ensures
        r == (a@ == b@),
{
    if a.len() != b.len() {
        proof {
            assert(a@ != b@);
        }
        return false;
    }
    let mut i: usize = 0;
    while i < a.len()
        invariant
            i <= a.len(),
            a@.len() == b@.len(),
            forall|j: int| 0 <= j < i ==> a@[j] == b@[j],
        decreases a.len() - i,
    {
        if a[i] != b[i] {
            return false;
        }
        i += 1;
    }
    proof {
        assert(a@ =~= b@);
    }
    true
}

/// A copy of a byte string.
pub fn clone_bytes(v: &[u8]) -> (r: Vec<u8>)
    ensures
        r@ == v@,
{
    let mut r: Vec<u8> = Vec::new();
    let mut i: usize = 0;
    while i < v.len()
        invariant
            i <= v.len(),
            r@ == v@.take(i as int),
        decreases v.len() - i,
    {
        r.push(v[i]);
        proof {
            assert(v@.take(i + 1 as int) =~= v@.take(i as int).push(v@[i as int]));
        }
        i += 1;
    }
    proof {
        assert(v@.take(v@.len() as int) =~= v@);
    }
    r
}

} // verus!
