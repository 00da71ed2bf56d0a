//! The string keyspace: values with an optional absolute expiry instant.

use vstd::prelude::*;

verus! {

/// A stored value and the instant, in milliseconds since the unix epoch, at
/// which it expires.
pub struct StringEntry {
    pub value: String,
    pub expiry: Option<i64>,
}

/// What a key maps to: its value and its expiry instant.
pub struct EntryModel {
    pub value: Seq<char>,
    pub expiry: Option<i64>,
}

impl View for StringEntry {
    type V = EntryModel;

    open spec fn view(&self) -> EntryModel {
        EntryModel { value: self.value@, expiry: self.expiry }
    }
}

/// An entry is expired at `now` when its expiry instant is at or before `now`.
pub open spec fn expired(e: EntryModel, now: i64) -> bool {
    e.expiry matches Some(t) && t <= now
}

/// What `GET` sees of a key at `now`: its value, unless it is absent or
/// expired.
pub open spec fn visible(m: Map<Seq<char>, EntryModel>, key: Seq<char>, now: i64) -> Option<Seq<char>> {
    if m.contains_key(key) && !expired(m[key], now) {
        Some(m[key].value)
    } else {
        None
    }
}

/// The keyspace. Each key occurs once.
///
/// The entries are kept in a `Vec` and found by a linear scan. vstd specifies
/// `std::collections::HashMap` only for key types known to obey its key model
/// (the integer types and a few others); for `String` keys that fact cannot be
/// established without an assumption, so with a `HashMap<String, _>` neither
/// `store` nor `try_get` could be proved. The uniqueness of keys that the map
/// gave is the invariant `wf` here.
pub struct StringStore {
    entries: Vec<(String, StringEntry)>,
}

impl View for StringStore {
    type V = Map<Seq<char>, EntryModel>;

    closed spec fn view(&self) -> Map<Seq<char>, EntryModel> {
        Map::new(
            |k: Seq<char>| exists|i: int| 0 <= i < self.entries@.len() && #[trigger] self.entries@[i].0@ == k,
            |k: Seq<char>|
                {
                    let i = choose|i: int| 0 <= i < self.entries@.len() && #[trigger] self.entries@[i].0@ == k;
                    self.entries@[i].1@
                },
        )
    }
}

impl StringStore {
    /// Each key is held by one entry.
    pub closed spec fn wf(&self) -> bool {
        forall|i: int, j: int|
            0 <= i < self.entries@.len() && 0 <= j < self.entries@.len() && i != j
                ==> #[trigger] self.entries@[i].0@ != #[trigger] self.entries@[j].0@
    }

    /// An empty keyspace.
    pub fn new() -> (r: StringStore)
        ensures
            r.wf(),
            r@ == Map::<Seq<char>, EntryModel>::empty(),
    {
        let r = StringStore { entries: Vec::new() };
        assert(r@ =~= Map::<Seq<char>, EntryModel>::empty());
        r
    }

    /// The index of the entry holding `key`.
    fn find(&self, key: &str) -> (r: Option<usize>)
        requires
            self.wf(),
        ensures
            r matches Some(i) ==> i < self.entries@.len() && self.entries@[i as int].0@ == key@,
            r is None ==> !self@.contains_key(key@),
            r matches Some(i) ==> self@.contains_key(key@) && self@[key@] == self.entries@[i as int].1@,
    {
        let wanted = key.to_owned();
        let mut i: usize = 0;
        while i < self.entries.len()
            invariant
                i <= self.entries@.len(),
                wanted@ == key@,
                self.wf(),
                forall|j: int| 0 <= j < i ==> #[trigger] self.entries@[j].0@ != key@,
            decreases self.entries@.len() - i,
        {
            if self.entries[i].0 == wanted {
                proof {
                    assert(self@.contains_key(key@));
                    let c = choose|c: int| 0 <= c < self.entries@.len() && #[trigger] self.entries@[c].0@ == key@;
                    if c != i {
                        assert(self.entries@[c].0@ != self.entries@[i as int].0@);
                    }
                }
                return Some(i);
            }
            i = i + 1;
        }
        None
    }

    /// Sets `key` to `value` with `expiry`, replacing any entry it had: the
    /// old expiry is discarded, not merged.
    pub fn store(&mut self, key: String, value: String, expiry: Option<i64>)
        requires
            old(self).wf(),
        ensures
            final(self).wf(),
            final(self)@ == old(self)@.insert(key@, EntryModel { value: value@, expiry }),
    {
        let ghost k = key@;
        let ghost e = EntryModel { value: value@, expiry };
        match self.find(key.as_str()) {
            Some(i) => {
                self.entries.set(i, (key, StringEntry { value, expiry }));
                proof {
                    assert forall|x: Seq<char>| #[trigger] self@.contains_key(x) == old(self)@.insert(k, e).contains_key(x) by {
                        if x == k {
                            assert(self.entries@[i as int].0@ == k);
                        }
                        if old(self)@.contains_key(x) && x != k {
                            let c = choose|c: int| 0 <= c < old(self).entries@.len() && #[trigger] old(self).entries@[c].0@ == x;
                            assert(self.entries@[c].0@ == x);
                        }
                        if self@.contains_key(x) {
                            let c = choose|c: int| 0 <= c < self.entries@.len() && #[trigger] self.entries@[c].0@ == x;
                            if c != i {
                                assert(old(self).entries@[c].0@ == x);
                            }
                        }
                    }
                    assert forall|x: Seq<char>| #[trigger] self@.contains_key(x) implies self@[x] == old(self)@.insert(k, e)[x] by {
                        let c = choose|c: int| 0 <= c < self.entries@.len() && #[trigger] self.entries@[c].0@ == x;
                        if x != k {
                            assert(old(self).entries@[c].0@ == x);
                            let d = choose|d: int| 0 <= d < old(self).entries@.len() && #[trigger] old(self).entries@[d].0@ == x;
                            assert(d == c);
                        } else {
                            assert(self.entries@[i as int].0@ == k);
                        }
                    }
                    assert(self@ =~= old(self)@.insert(k, e));
                }
            },
            None => {
                self.entries.push((key, StringEntry { value, expiry }));
                proof {
                    let n = old(self).entries@.len() as int;
                    assert(self.entries@[n].0@ == k);
                    assert forall|x: Seq<char>| #[trigger] self@.contains_key(x) == old(self)@.insert(k, e).contains_key(x) by {
                        if old(self)@.contains_key(x) {
                            let c = choose|c: int| 0 <= c < old(self).entries@.len() && #[trigger] old(self).entries@[c].0@ == x;
                            assert(self.entries@[c].0@ == x);
                        }
                        if self@.contains_key(x) && x != k {
                            let c = choose|c: int| 0 <= c < self.entries@.len() && #[trigger] self.entries@[c].0@ == x;
                            assert(old(self).entries@[c].0@ == x);
                        }
                    }
                    assert forall|x: Seq<char>| #[trigger] self@.contains_key(x) implies self@[x] == old(self)@.insert(k, e)[x] by {
                        let c = choose|c: int| 0 <= c < self.entries@.len() && #[trigger] self.entries@[c].0@ == x;
                        if x != k {
                            assert(old(self).entries@[c].0@ == x);
                            let d = choose|d: int| 0 <= d < old(self).entries@.len() && #[trigger] old(self).entries@[d].0@ == x;
                            assert(d == c);
                        } else {
                            assert(c == n);
                        }
                    }
                    assert(self@ =~= old(self)@.insert(k, e));
                }
            },
        }
    }

    /// The value of `key` at `now`: `None` when the key is absent or its
    /// expiry instant is at or before `now`.
    pub fn try_get(&self, key: &str, now: i64) -> (r: Option<&str>)
        requires
            self.wf(),
        ensures
            match r {
                Some(v) => visible(self@, key@, now) == Some(v@),
                None => visible(self@, key@, now) is None,
            },
    {
        match self.find(key) {
            None => None,
            Some(i) => {
                let entry = &self.entries[i].1;
                let is_expired = match entry.expiry {
                    Some(t) => t <= now,
                    None => false,
                };
                if is_expired {
                    None
                } else {
                    Some(entry.value.as_str())
                }
            },
        }
    }
}

} // verus!
