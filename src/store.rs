//! The key-value store: keys with a value and an optional expiry instant,
//! expired lazily, when a read finds them.
use vstd::prelude::*;
use crate::resp::same_bytes;

verus! {

/// What a key maps to: the instant (milliseconds on the store's clock) at
/// which it expires, if any, and the value.
pub type Stored = (Option<u64>, Seq<u8>);

/// The map that a list of pairs builds, each pair inserted in turn.
pub open spec fn map_of<K, V>(s: Seq<(K, V)>) -> Map<K, V>
    decreases s.len(),
{
    if s.len() == 0 {
        Map::empty()
    } else {
        map_of(s.drop_last()).insert(s.last().0, s.last().1)
    }
}

pub open spec fn unique_keys<K, V>(s: Seq<(K, V)>) -> bool {
    forall|i: int, j: int| 0 <= i < j < s.len() ==> (#[trigger] s[i]).0 != (#[trigger] s[j]).0
}

pub proof fn lemma_map_of_contains<K, V>(s: Seq<(K, V)>, k: K)
    ensures
        map_of(s).contains_key(k) <==> exists|i: int| 0 <= i < s.len() && (#[trigger] s[i]).0 == k,
    decreases s.len(),
{
    if s.len() > 0 {
        lemma_map_of_contains(s.drop_last(), k);
        if map_of(s).contains_key(k) {
            if k == s.last().0 {
                assert(s[s.len() - 1].0 == k);
            } else {
                let i = choose|i: int| 0 <= i < s.drop_last().len() && (#[trigger] s.drop_last()[i]).0 == k;
                assert(s[i].0 == k);
            }
        }
        if exists|i: int| 0 <= i < s.len() && (#[trigger] s[i]).0 == k {
            let i = choose|i: int| 0 <= i < s.len() && (#[trigger] s[i]).0 == k;
            if i < s.len() - 1 {
                assert(s.drop_last()[i].0 == k);
            }
        }
    }
}

pub proof fn lemma_map_of_index<K, V>(s: Seq<(K, V)>, i: int)
    requires
        unique_keys(s),
        0 <= i < s.len(),
    ensures
        map_of(s).contains_key(s[i].0),
        map_of(s)[s[i].0] == s[i].1,
    decreases s.len(),
{
    if i < s.len() - 1 {
        lemma_map_of_index(s.drop_last(), i);
        assert(s[i].0 != s[s.len() - 1].0);
    }
}

proof fn lemma_map_of_update<K, V>(s: Seq<(K, V)>, i: int, v: V)
    requires
        unique_keys(s),
        0 <= i < s.len(),
    ensures
        map_of(s.update(i, (s[i].0, v))) == map_of(s).insert(s[i].0, v),
    decreases s.len(),
{
    let k = s[i].0;
    let t = s.update(i, (k, v));
    if i == s.len() - 1 {
        assert(t.drop_last() =~= s.drop_last());
        assert(map_of(t) =~= map_of(s).insert(k, v));
    } else {
        lemma_map_of_update(s.drop_last(), i, v);
        assert(t.drop_last() =~= s.drop_last().update(i, (k, v)));
        assert(s[i].0 != s[s.len() - 1].0);
        assert(map_of(t) =~= map_of(s).insert(k, v));
    }
}

proof fn lemma_map_of_remove<K, V>(s: Seq<(K, V)>, i: int)
    requires
        unique_keys(s),
        0 <= i < s.len(),
    ensures
        map_of(s.remove(i)) == map_of(s).remove(s[i].0),
    decreases s.len(),
{
    let k = s[i].0;
    if i == s.len() - 1 {
        assert(s.remove(i) =~= s.drop_last());
        lemma_map_of_contains(s.drop_last(), k);
        assert forall|j: int| 0 <= j < s.drop_last().len() implies (#[trigger] s.drop_last()[j]).0
            != k by {
            assert(s[j].0 != s[i].0);
        }
        assert(map_of(s.remove(i)) =~= map_of(s).remove(k));
    } else {
        lemma_map_of_remove(s.drop_last(), i);
        assert(s.remove(i) =~= s.drop_last().remove(i).push(s.last()));
        assert(s.remove(i).drop_last() =~= s.drop_last().remove(i));
        assert(s[i].0 != s[s.len() - 1].0);
        assert(map_of(s.remove(i)) =~= map_of(s).remove(k));
    }
}

struct Entry {
    key: Vec<u8>,
    expiry: Option<u64>,
    value: Vec<u8>,
}

/// The store. Each key appears once.
pub struct Store {
    entries: Vec<Entry>,
}

/// The instant at which a key set now with a time to live of `px`
/// milliseconds expires; at the end of the clock's range it saturates.
pub open spec fn expiry_after(now: u64, px: Option<u64>) -> Option<u64> {
    match px {
        Some(ms) => Some(if now + ms > u64::MAX {
            u64::MAX
        } else {
            (now + ms) as u64
        }),
        None => None,
    }
}

/// An entry is gone once the clock reaches its expiry instant.
pub open spec fn is_expired(s: Stored, now: u64) -> bool {
    s.0 matches Some(t) && now >= t
}

impl Store {
    pub closed spec fn items(&self) -> Seq<(Seq<u8>, Stored)> {
        Seq::new(
            self.entries@.len(),
            |i: int|
                (
                    self.entries@[i].key@,
                    (self.entries@[i].expiry, self.entries@[i].value@),
                ),
        )
    }

    pub closed spec fn wf(&self) -> bool {
        unique_keys(self.items())
    }

    /// What each key maps to.
    pub closed spec fn view(&self) -> Map<Seq<u8>, Stored> {
        map_of(self.items())
    }

    /// The keys, in the order in which the store holds them.
    pub closed spec fn key_list(&self) -> Seq<Seq<u8>> {
        Seq::new(self.entries@.len(), |i: int| self.entries@[i].key@)
    }

    /// The key list holds each key of the store once, and nothing else.
    pub proof fn lemma_key_list(&self)
        requires
            self.wf(),
        ensures
            self.key_list().no_duplicates(),
            forall|k: Seq<u8>| self.view().contains_key(k) <==> self.key_list().contains(k),
            self.key_list().len() == self.view().dom().len(),
    {
        let s = self.items();
        let l = self.key_list();
        assert forall|k: Seq<u8>| self.view().contains_key(k) <==> l.contains(k) by {
            lemma_map_of_contains(s, k);
            if l.contains(k) {
                let i = choose|i: int| 0 <= i < l.len() && l[i] == k;
                assert(s[i].0 == k);
            }
            if self.view().contains_key(k) {
                let i = choose|i: int| 0 <= i < s.len() && (#[trigger] s[i]).0 == k;
                assert(l[i] == k);
            }
        }
        assert forall|i: int, j: int| 0 <= i < l.len() && 0 <= j < l.len() && i != j implies l[i]
            != l[j] by {
            if i < j {
                assert(s[i].0 != s[j].0);
            } else {
                assert(s[j].0 != s[i].0);
            }
        }
        l.unique_seq_to_set();
        assert(l.to_set() =~= self.view().dom());
    }

    pub fn new() -> (r: Store)
        ensures
            r.wf(),
            r.view() == Map::<Seq<u8>, Stored>::empty(),
    {
        let r = Store { entries: Vec::new() };
        assert(r.items() =~= Seq::<(Seq<u8>, Stored)>::empty());
        r
    }

    /// Number of keys held.
    pub fn len(&self) -> (r: usize)
        requires
            self.wf(),
        ensures
            r == self.view().dom().len(),
    {
        proof {
            self.lemma_key_list();
        }
        self.entries.len()
    }

    fn find(&self, key: &[u8]) -> (r: Option<usize>)
        requires
            self.wf(),
        ensures
            match r {
                Some(i) => i < self.entries@.len() && self.items()[i as int].0 == key@,
                None => !self.view().contains_key(key@),
            },
    {
        let mut i: usize = 0;
        while i < self.entries.len()
            invariant
                i <= self.entries@.len(),
                forall|j: int| 0 <= j < i ==> (#[trigger] self.items()[j]).0 != key@,
            decreases self.entries@.len() - i,
        {
            if same_bytes(self.entries[i].key.as_slice(), key) {
                return Some(i);
            }
            i = i + 1;
        }
        proof {
            lemma_map_of_contains(self.items(), key@);
        }
        None
    }

    /// Maps `key` to `(expiry, value)`, replacing what it mapped to.
    pub fn insert(&mut self, key: Vec<u8>, expiry: Option<u64>, value: Vec<u8>)
        requires
            old(self).wf(),
        ensures
            final(self).wf(),
            final(self).view() == old(self).view().insert(key@, (expiry, value@)),
    {
        let ghost s = self.items();
        let ghost kv = key@;
        let ghost vv = value@;
        match self.find(key.as_slice()) {
            Some(i) => {
                let e = Entry { key, expiry, value };
                self.entries.set(i, e);
                proof {
                    assert(self.items() =~= s.update(i as int, (kv, (expiry, vv))));
                    lemma_map_of_update(s, i as int, (expiry, vv));
                }
            },
            None => {
                let e = Entry { key, expiry, value };
                self.entries.push(e);
                proof {
                    let t = self.items();
                    assert(t =~= s.push((kv, (expiry, vv))));
                    assert(t.drop_last() =~= s);
                    lemma_map_of_contains(s, kv);
                    assert forall|i: int, j: int| 0 <= i < j < t.len() implies (#[trigger] t[i]).0
                        != (#[trigger] t[j]).0 by {
                        if j == t.len() - 1 {
                            assert(s[i].0 != kv);
                        } else {
                            assert(s[i].0 != s[j].0);
                        }
                    }
                }
            },
        }
    }

    /// Sets `key` to `value`; with a time to live of `px` milliseconds it
    /// expires `px` after `now`.
    pub fn set(&mut self, key: Vec<u8>, value: Vec<u8>, px: Option<u64>, now: u64)
        requires
            old(self).wf(),
        ensures
            final(self).wf(),
            final(self).view() == old(self).view().insert(key@, (expiry_after(now, px), value@)),
    {
        let expiry = match px {
            Some(ms) => Some(now.saturating_add(ms)),
            None => None,
        };
        self.insert(key, expiry, value);
    }

    /// The value of `key` at instant `now`. A key whose expiry has come is
    /// removed and reads as absent.
    pub fn get(&mut self, key: &[u8], now: u64) -> (r: Option<Vec<u8>>)
        requires
            old(self).wf(),
        ensures
            final(self).wf(),
            !old(self).view().contains_key(key@) ==> r is None && final(self).view() == old(
                self,
            ).view(),
            old(self).view().contains_key(key@) && is_expired(old(self).view()[key@], now) ==> r is None
                && final(self).view() == old(self).view().remove(key@),
            old(self).view().contains_key(key@) && !is_expired(old(self).view()[key@], now) ==> (r matches Some(v)
                && v@ == old(self).view()[key@].1) && final(self).view() == old(self).view(),
    {
        let ghost s = self.items();
        match self.find(key) {
            None => None,
            Some(i) => {
                proof {
                    lemma_map_of_index(s, i as int);
                }
                let expired = match self.entries[i].expiry {
                    Some(t) => now >= t,
                    None => false,
                };
                if expired {
                    self.entries.remove(i);
                    proof {
                        assert(self.items() =~= s.remove(i as int));
                        lemma_map_of_remove(s, i as int);
                        let t = self.items();
                        assert forall|a: int, b: int| 0 <= a < b < t.len() implies (#[trigger] t[a]).0
                            != (#[trigger] t[b]).0 by {
                            if a < i {
                                if b < i {
                                    assert(s[a].0 != s[b].0);
                                } else {
                                    assert(s[a].0 != s[b + 1].0);
                                }
                            } else {
                                assert(s[a + 1].0 != s[b + 1].0);
                            }
                        }
                    }
                    None
                } else {
                    Some(self.entries[i].value.clone())
                }
            },
        }
    }

    /// The keys matching `pattern`: all of them for `*`, none for any other
    /// pattern.
    pub fn keys(&self, pattern: &[u8]) -> (r: Vec<Vec<u8>>)
        requires
            self.wf(),
        ensures
            pattern@ == seq![42u8] ==> key_views(r@) == self.key_list(),
            pattern@ != seq![42u8] ==> r@.len() == 0,
    {
        let mut out: Vec<Vec<u8>> = Vec::new();
        if !(pattern.len() == 1 && pattern[0] == 42) {
            assert(pattern@ != seq![42u8]);
            return out;
        }
        assert(pattern@ =~= seq![42u8]);
        let mut i: usize = 0;
        while i < self.entries.len()
            invariant
                i <= self.entries@.len(),
                key_views(out@) =~= self.key_list().take(i as int),
            decreases self.entries@.len() - i,
        {
            let k = self.entries[i].key.clone();
            let ghost before = key_views(out@);
            out.push(k);
            assert(key_views(out@) =~= before.push(self.key_list()[i as int]));
            assert(self.key_list().take(i as int).push(self.key_list()[i as int]) =~= self.key_list().take(i + 1));
            i = i + 1;
        }
        assert(self.key_list().take(i as int) =~= self.key_list());
        out
    }
}

pub open spec fn key_views(v: Seq<Vec<u8>>) -> Seq<Seq<u8>> {
    Seq::new(v.len(), |i: int| v[i]@)
}

} // verus!
