//! The expiring key-value store: byte-string keys map to stored values,
//! each entry optionally carrying an absolute creation time and a time to
//! live. Expiration is authoritative at read time; the sweep only reclaims
//! space. Time is handed in by the caller as a millisecond clock value.

use vstd::prelude::*;

verus! {

/// Mathematical model of a stored value.
pub enum StoredModel {
    Str(Seq<u8>),
    Bytes(Seq<u8>),
    Integer(i64),
    Null,
}

/// A value as kept by the store.
#[derive(Debug, PartialEq)]
pub enum Value {
    String(Vec<u8>),
    Bytes(Vec<u8>),
    Integer(i64),
    Null,
}

impl Value {
    /// The mathematical view of this stored value.
    pub open spec fn model(&self) -> StoredModel {
        match self {
            Value::String(s) => StoredModel::Str(s@),
            Value::Bytes(b) => StoredModel::Bytes(b@),
            Value::Integer(i) => StoredModel::Integer(*i),
            Value::Null => StoredModel::Null,
        }
    }

    /// Convert a wire value into a storable value; aggregate and error
    /// values cannot be stored.
    pub fn try_from_wire(value: &crate::value::Value) -> (r: Result<Value, &'static str>)
        ensures
            match r {
                Ok(v) => storable_of(value.model()) == Some(v.model()),
                Err(_) => storable_of(value.model()) is None,
            },
    {
        match value {
            crate::value::Value::Null => Ok(Value::Null),
            crate::value::Value::SimpleString(s) => Ok(Value::String(clone_bytes(s))),
            crate::value::Value::Integer(i) => Ok(Value::Integer(*i)),
            crate::value::Value::BulkString(s) => Ok(Value::Bytes(clone_bytes(s))),
            _ => Err("invalid value"),
        }
    }

    /// A copy of this value with the same model.
    pub fn duplicate(&self) -> (r: Value)
        ensures
            r.model() == self.model(),
    {
        match self {
            Value::String(s) => Value::String(clone_bytes(s)),
            Value::Bytes(b) => Value::Bytes(clone_bytes(b)),
            Value::Integer(i) => Value::Integer(*i),
            Value::Null => Value::Null,
        }
    }
}

/// The storable projection of a wire value.
pub open spec fn storable_of(m: crate::value::ValueModel) -> Option<StoredModel> {
    match m {
        crate::value::ValueModel::Null => Some(StoredModel::Null),
        crate::value::ValueModel::SimpleString(s) => Some(StoredModel::Str(s)),
        crate::value::ValueModel::Integer(i) => Some(StoredModel::Integer(i)),
        crate::value::ValueModel::BulkString(s) => Some(StoredModel::Bytes(s)),
        _ => None,
    }
}

/// A byte-for-byte copy of `v`.
pub(crate) fn clone_bytes(v: &Vec<u8>) -> (r: Vec<u8>)
    ensures
        r@ == v@,
{
    let mut out: Vec<u8> = Vec::new();
    let mut i: usize = 0;
    while i < v.len()
        invariant
            i <= v@.len(),
            out@ == v@.take(i as int),
        decreases v@.len() - i,
    {
        out.push(v[i]);
        assert(out@ =~= v@.take(i as int + 1));
        i = i + 1;
    }
    assert(out@ =~= v@);
    out
}

/// Mathematical model of one entry.
pub enum EntryModel {
    /// Present until `created + duration` milliseconds (exclusive).
    Expire { value: StoredModel, created: u64, duration: u64 },
    /// Present until overwritten.
    NonExpire(StoredModel),
}

/// The stored value of an entry.
pub open spec fn entry_value(e: EntryModel) -> StoredModel {
    match e {
        EntryModel::Expire { value, created, duration } => value,
        EntryModel::NonExpire(v) => v,
    }
}

/// An entry is visible to reads at `now`.
pub open spec fn live(e: EntryModel, now: u64) -> bool {
    match e {
        EntryModel::Expire { value, created, duration } => (now as int) < created + duration,
        EntryModel::NonExpire(_) => true,
    }
}

/// An entry is reclaimable by the sweep at `now`: its deadline lies
/// strictly in the past.
pub open spec fn expired_strict(e: EntryModel, now: u64) -> bool {
    match e {
        EntryModel::Expire { value, created, duration } => created + duration < now as int,
        EntryModel::NonExpire(_) => false,
    }
}

enum Entry {
    Expire { value: Value, created: u64, duration: u64 },
    NonExpire(Value),
}

impl Entry {
    spec fn model(&self) -> EntryModel {
        match self {
            Entry::Expire { value, created, duration } => EntryModel::Expire {
                value: value.model(),
                created: *created,
                duration: *duration,
            },
            Entry::NonExpire(v) => EntryModel::NonExpire(v.model()),
        }
    }
}

/// The entry stored under key `k`, searching the newest binding first.
spec fn lookup(s: Seq<(Vec<u8>, Entry)>, k: Seq<u8>) -> Option<EntryModel>
    decreases s.len(),
{
    if s.len() == 0 {
        None
    } else if s.last().0@ == k {
        Some(s.last().1.model())
    } else {
        lookup(s.drop_last(), k)
    }
}

/// No two bindings share a key.
spec fn keys_unique(s: Seq<(Vec<u8>, Entry)>) -> bool {
    forall|i: int, j: int| 0 <= i < j < s.len() ==> s[i].0@ != s[j].0@
}

/// `lookup` misses exactly when no binding carries the key.
proof fn lemma_lookup_none_iff(s: Seq<(Vec<u8>, Entry)>, k: Seq<u8>)
    ensures
        (lookup(s, k) is None) <==> (forall|i: int| 0 <= i < s.len() ==> s[i].0@ != k),
    decreases s.len(),
{
    if s.len() > 0 {
        lemma_lookup_none_iff(s.drop_last(), k);
        assert(forall|i: int| 0 <= i < s.len() - 1 ==> s.drop_last()[i] == s[i]);
    }
}

/// With unique keys, `lookup` finds the binding at any index.
proof fn lemma_lookup_at_index(s: Seq<(Vec<u8>, Entry)>, i: int)
    requires
        keys_unique(s),
        0 <= i < s.len(),
    ensures
        lookup(s, s[i].0@) == Some(s[i].1.model()),
    decreases s.len(),
{
    if i < s.len() - 1 {
        assert(keys_unique(s.drop_last())) by {
            assert(forall|a: int, b: int|
                0 <= a < b < s.len() - 1 ==> s.drop_last()[a].0@ != s.drop_last()[b].0@);
        }
        assert(s.drop_last()[i] == s[i]);
        lemma_lookup_at_index(s.drop_last(), i);
    }
}

/// Removing the binding at index `i` removes exactly its key from `lookup`.
proof fn lemma_lookup_remove(s: Seq<(Vec<u8>, Entry)>, i: int, k: Seq<u8>)
    requires
        keys_unique(s),
        0 <= i < s.len(),
    ensures
        keys_unique(s.remove(i)),
        lookup(s.remove(i), k) == if k == s[i].0@ {
            None::<EntryModel>
        } else {
            lookup(s, k)
        },
    decreases s.len(),
{
    assert(keys_unique(s.remove(i))) by {
        assert(forall|a: int, b: int|
            0 <= a < b < s.len() - 1 ==> #[trigger] s.remove(i)[a].0@ != #[trigger] s.remove(
                i,
            )[b].0@) by {
            assert(forall|a: int|
                0 <= a < s.len() - 1 ==> #[trigger] s.remove(i)[a] == if a < i {
                    s[a]
                } else {
                    s[a + 1]
                });
        }
    }
    if i == s.len() - 1 {
        assert(s.remove(i) =~= s.drop_last());
        if k == s[i].0@ {
            lemma_lookup_none_iff(s.drop_last(), k);
        }
    } else {
        assert(s.remove(i).last() == s.last());
        assert(s.remove(i).drop_last() =~= s.drop_last().remove(i));
        assert(keys_unique(s.drop_last())) by {
            assert(forall|a: int, b: int|
                0 <= a < b < s.len() - 1 ==> s.drop_last()[a].0@ != s.drop_last()[b].0@);
        }
        assert(s.drop_last()[i] == s[i]);
        lemma_lookup_remove(s.drop_last(), i, k);
    }
}

/// The concurrent store: a mapping from byte-string keys to entries.
///
/// The embedding application supplies the clock (milliseconds) and provides
/// whatever locking its concurrency model needs; every operation here is a
/// plain state transition whose effect on the mapping is stated exactly.
///
/// The mapping is kept as an association list under a unique-keys
/// invariant, which makes every map fact a short induction over `lookup`;
/// a hash map would give the same contracts only if its specification
/// supported byte-vector keys. The cost is a linear scan per operation.
pub struct Database {
    entries: Vec<(Vec<u8>, Entry)>,
}

impl Database {
    /// Well-formed store: no key is bound twice.
    pub closed spec fn wf(&self) -> bool {
        keys_unique(self.entries@)
    }

    /// The entry (with its expiration metadata) bound to `k`.
    pub closed spec fn spec_get(&self, k: Seq<u8>) -> Option<EntryModel> {
        lookup(self.entries@, k)
    }

    /// The value a read at `now` observes under `k`: present entries only,
    /// and expiring entries only before their deadline.
    pub open spec fn spec_read(&self, k: Seq<u8>, now: u64) -> Option<StoredModel> {
        match self.spec_get(k) {
            Some(e) => if live(e, now) {
                Some(entry_value(e))
            } else {
                None
            },
            None => None,
        }
    }

    /// An empty store.
    pub fn new() -> (r: Database)
        ensures
            r.wf(),
            forall|k: Seq<u8>| r.spec_get(k) is None,
    {
        let r = Database { entries: Vec::new() };
        proof {
            assert forall|k: Seq<u8>| r.spec_get(k) is None by {
                lemma_lookup_none_iff(r.entries@, k);
            }
        }
        r
    }

    /// Insert or overwrite the entry for `key`. With a duration the entry
    /// expires `duration` milliseconds after `now_ms`; without one it stays
    /// until overwritten.
    pub fn insert(&mut self, key: Vec<u8>, value: Value, now_ms: u64, duration: Option<u64>)
        requires
            old(self).wf(),
        ensures
            final(self).wf(),
            forall|k: Seq<u8>|
                #[trigger] final(self).spec_get(k) == if k == key@ {
                    Some(
                        match duration {
                            Some(d) => EntryModel::Expire {
                                value: value.model(),
                                created: now_ms,
                                duration: d,
                            },
                            None => EntryModel::NonExpire(value.model()),
                        },
                    )
                } else {
                    old(self).spec_get(k)
                },
    {
        let ghost orig = self.entries@;
        let entry = match duration {
            Some(d) => Entry::Expire { value, created: now_ms, duration: d },
            None => Entry::NonExpire(value),
        };
        match find_key(&self.entries, &key) {
            Some(i) => {
                proof {
                    lemma_lookup_at_index(orig, i as int);
                }
                let _ = self.entries.remove(i);
                proof {
                    assert forall|k: Seq<u8>|
                        #[trigger] lookup(self.entries@, k) == if k == key@ {
                            None::<EntryModel>
                        } else {
                            lookup(orig, k)
                        } by {
                        lemma_lookup_remove(orig, i as int, k);
                    }
                }
            },
            None => {
                proof {
                    lemma_lookup_none_iff(self.entries@, key@);
                }
            },
        }
        let ghost pre_push = self.entries@;
        assert(lookup(pre_push, key@) is None);
        assert(forall|k: Seq<u8>|
            k != key@ ==> #[trigger] lookup(pre_push, k) == lookup(orig, k));
        assert(keys_unique(pre_push));
        self.entries.push((key, entry));
        proof {
            assert(self.entries@.drop_last() =~= pre_push);
            assert(self.entries@.last().0@ == key@ && self.entries@.last().1 == entry);
            assert(forall|k: Seq<u8>|
                #[trigger] lookup(self.entries@, k) == if k == key@ {
                    Some(entry.model())
                } else {
                    lookup(pre_push, k)
                });
            lemma_lookup_none_iff(pre_push, key@);
            assert forall|a: int, b: int|
                0 <= a < b < self.entries@.len() implies self.entries@[a].0@
                != self.entries@[b].0@ by {
                if b == self.entries@.len() - 1 {
                    assert(self.entries@[a] == pre_push[a]);
                } else {
                    assert(self.entries@[a] == pre_push[a] && self.entries@[b] == pre_push[b]);
                }
            }
        }
    }

    /// Read the value under `key` at time `now_ms`: a copy of the stored
    /// value if the entry is present and not expired, absent otherwise. An
    /// expired-but-unswept entry reads as absent.
    pub fn get(&self, key: &Vec<u8>, now_ms: u64) -> (r: Option<Value>)
        requires
            self.wf(),
        ensures
            match r {
                Some(v) => self.spec_read(key@, now_ms) == Some(v.model()),
                None => self.spec_read(key@, now_ms) is None,
            },
    {
        let mut i: usize = 0;
        let n = self.entries.len();
        while i < n
            invariant
                i <= n,
                self.wf(),
                n == self.entries@.len(),
                forall|j: int| 0 <= j < i ==> self.entries@[j].0@ != key@,
            decreases n - i,
        {
            if eq_bytes(&self.entries[i].0, key) {
                proof {
                    lemma_lookup_at_index(self.entries@, i as int);
                }
                match &self.entries[i].1 {
                    Entry::NonExpire(v) => {
                        return Some(v.duplicate());
                    },
                    Entry::Expire { value, created, duration } => {
                        let deadline = created.checked_add(*duration);
                        match deadline {
                            Some(d) => {
                                if now_ms < d {
                                    return Some(value.duplicate());
                                } else {
                                    return None;
                                }
                            },
                            None => {
                                return Some(value.duplicate());
                            },
                        }
                    },
                }
            }
            i = i + 1;
        }
        proof {
            lemma_lookup_none_iff(self.entries@, key@);
        }
        None
    }

    /// The sweep: remove exactly the entries whose deadline lies strictly
    /// before `now_ms`. Entries expiring exactly at `now_ms` are already
    /// invisible to reads but are left for a later pass.
    pub fn clean(&mut self, now_ms: u64)
        requires
            old(self).wf(),
        ensures
            final(self).wf(),
            forall|k: Seq<u8>|
                #[trigger] final(self).spec_get(k) == match old(self).spec_get(k) {
                    Some(e) => if expired_strict(e, now_ms) {
                        None::<EntryModel>
                    } else {
                        Some(e)
                    },
                    None => None::<EntryModel>,
                },
    {
        let ghost orig = self.entries@;
        let mut j: usize = 0;
        while j < self.entries.len()
            invariant
                self.wf(),
                j <= self.entries@.len(),
                forall|idx: int|
                    0 <= idx < j ==> !expired_strict(
                        #[trigger] self.entries@[idx].1.model(),
                        now_ms,
                    ),
                forall|k: Seq<u8>|
                    #[trigger] lookup(self.entries@, k) is Some ==> lookup(self.entries@, k)
                        == lookup(orig, k),
                forall|k: Seq<u8>|
                    #[trigger] lookup(self.entries@, k) is None ==> (lookup(orig, k) is None
                        || expired_strict(lookup(orig, k)->0, now_ms)),
            decreases self.entries@.len() - j,
        {
            let expired = match &self.entries[j].1 {
                Entry::Expire { value, created, duration } => {
                    match created.checked_add(*duration) {
                        Some(d) => d < now_ms,
                        None => false,
                    }
                },
                Entry::NonExpire(_) => false,
            };
            if expired {
                let ghost pre = self.entries@;
                let ghost k0 = pre[j as int].0@;
                proof {
                    lemma_lookup_at_index(pre, j as int);
                }
                let _ = self.entries.remove(j);
                proof {
                    assert forall|k: Seq<u8>|
                        #[trigger] lookup(self.entries@, k) == if k == k0 {
                            None::<EntryModel>
                        } else {
                            lookup(pre, k)
                        } by {
                        lemma_lookup_remove(pre, j as int, k);
                    }
                    assert(forall|idx: int|
                        0 <= idx < j ==> #[trigger] self.entries@[idx] == pre[idx]);
                }
            } else {
                j = j + 1;
            }
        }
        proof {
            assert forall|k: Seq<u8>|
                #[trigger] lookup(self.entries@, k) == match lookup(orig, k) {
                    Some(e) => if expired_strict(e, now_ms) {
                        None::<EntryModel>
                    } else {
                        Some(e)
                    },
                    None => None::<EntryModel>,
                } by {
                match lookup(self.entries@, k) {
                    Some(e) => {
                        lemma_lookup_index(self.entries@, k);
                    },
                    None => {},
                }
            }
        }
    }
}

/// Expiration: an expiring entry is readable exactly before its deadline,
/// whether or not a sweep has run; a read at or past `created + duration`
/// sees nothing even while the entry is still physically present.
pub proof fn lemma_read_expiration(
    db: Database,
    k: Seq<u8>,
    value: StoredModel,
    created: u64,
    duration: u64,
    t: u64,
)
    requires
        db.spec_get(k) == Some(EntryModel::Expire { value, created, duration }),
    ensures
        db.spec_read(k, t) == if (t as int) < created + duration {
            Some(value)
        } else {
            None::<StoredModel>
        },
{
}

/// A successful `lookup` points at some binding.
proof fn lemma_lookup_index(s: Seq<(Vec<u8>, Entry)>, k: Seq<u8>)
    requires
        lookup(s, k) is Some,
    ensures
        exists|i: int|
            0 <= i < s.len() && s[i].0@ == k && #[trigger] s[i].1.model() == lookup(s, k)->0,
    decreases s.len(),
{
    if s.len() > 0 {
        if s.last().0@ == k {
            assert(s[s.len() - 1].0@ == k && s[s.len() - 1].1.model() == lookup(s, k)->0);
        } else {
            lemma_lookup_index(s.drop_last(), k);
            let i = choose|i: int|
                0 <= i < s.len() - 1 && s.drop_last()[i].0@ == k && #[trigger] s.drop_last()[i].1.model()
                    == lookup(s.drop_last(), k)->0;
            assert(s[i].0@ == k && s[i].1.model() == lookup(s, k)->0);
        }
    }
}

/// The index of the binding for `key`, if any.
fn find_key(entries: &Vec<(Vec<u8>, Entry)>, key: &Vec<u8>) -> (r: Option<usize>)
    ensures
        match r {
            Some(i) => i < entries@.len() && entries@[i as int].0@ == key@,
            None => forall|j: int| 0 <= j < entries@.len() ==> entries@[j].0@ != key@,
        },
{
    let mut i: usize = 0;
    let n = entries.len();
    while i < n
        invariant
            i <= n,
            n == entries@.len(),
            forall|j: int| 0 <= j < i ==> entries@[j].0@ != key@,
        decreases n - i,
    {
        if eq_bytes(&entries[i].0, key) {
            return Some(i);
        }
        i = i + 1;
    }
    None
}

/// Byte-string equality.
pub(crate) fn eq_bytes(a: &Vec<u8>, b: &Vec<u8>) -> (r: bool)
    ensures
        r == (a@ == b@),
{
    if a.len() != b.len() {
        return false;
    }
    let mut i: usize = 0;
    while i < a.len()
        invariant
            a@.len() == b@.len(),
            i <= a@.len(),
            forall|j: int| 0 <= j < i ==> a@[j] == b@[j],
        decreases a@.len() - i,
    {
        if a[i] != b[i] {
            return false;
        }
        i = i + 1;
    }
    proof {
        assert(a@ =~= b@);
    }
    true
}

} // verus!
