//! The orchestration layer: the in-memory mapping from keys to values, its
//! mutations, the auto-save policy, and the query dispatch.

use crate::condition::cond_matches;
use crate::condition::Cond;
use crate::condition::Condition;
use crate::storage::enc_store;
use crate::storage::StorageEngine;
use crate::text::has_prefix;
use crate::text::str_eq;
use crate::text::str_starts_with;
use crate::value::group_value_views;
use crate::value::obj_lookup;
use crate::value::obj_view;
use crate::value::Val;
use crate::value::Value;
use crate::DbError;
use vstd::prelude::*;

verus! {

broadcast use vstd::std_specs::vec::group_vec_axioms, vstd::set::axiom_set_insert_len;

/// No key occurs twice in an entry row.
pub open spec fn unique_keys(s: Seq<(Seq<char>, Val)>) -> bool {
    forall|i: int, j: int| 0 <= i < j < s.len() ==> (#[trigger] s[i]).0 != (#[trigger] s[j]).0
}

/// Some pair of the row carries the key.
pub open spec fn seq_has_key(s: Seq<(Seq<char>, Val)>, k: Seq<char>) -> bool {
    exists|i: int| 0 <= i < s.len() && (#[trigger] s[i]).0 == k
}

/// The mapping an entry row denotes; a later pair with the same key wins.
pub open spec fn assoc_map(s: Seq<(Seq<char>, Val)>) -> Map<Seq<char>, Val>
    decreases s,
{
    if s.len() == 0 {
        Map::empty()
    } else {
        assoc_map(s.drop_last()).insert(s.last().0, s.last().1)
    }
}

/// First-match lookup over a row with one more pair at its end.
proof fn lemma_obj_lookup_push(t: Seq<(Seq<char>, Val)>, p: (Seq<char>, Val), k: Seq<char>)
    ensures
        obj_lookup(t.push(p), k) == (if obj_lookup(t, k) is Some {
            obj_lookup(t, k)
        } else if p.0 == k {
            Some(p.1)
        } else {
            None::<Val>
        }),
    decreases t,
{
    if t.len() == 0 {
        assert(t.push(p)[0] == p);
        assert(t.push(p).drop_first() =~= Seq::<(Seq<char>, Val)>::empty());
    } else {
        assert(t.push(p)[0] == t[0]);
        assert(t.push(p).drop_first() =~= t.drop_first().push(p));
        lemma_obj_lookup_push(t.drop_first(), p, k);
    }
}

/// First-match lookup succeeds exactly when the key occurs in the row.
proof fn lemma_obj_lookup_occurs(s: Seq<(Seq<char>, Val)>, k: Seq<char>)
    ensures
        (obj_lookup(s, k) is Some) == seq_has_key(s, k),
    decreases s,
{
    if s.len() > 0 {
        lemma_obj_lookup_occurs(s.drop_first(), k);
        if s[0].0 == k {
            assert(seq_has_key(s, k));
        } else {
            if seq_has_key(s.drop_first(), k) {
                let i = choose|i: int|
                    0 <= i < s.drop_first().len() && s.drop_first()[i].0 == k;
                assert(s[i + 1].0 == k);
                assert(seq_has_key(s, k));
            }
            if seq_has_key(s, k) {
                let i = choose|i: int| 0 <= i < s.len() && s[i].0 == k;
                assert(i > 0);
                assert(s.drop_first()[i - 1].0 == k);
                assert(seq_has_key(s.drop_first(), k));
            }
        }
    }
}

/// Under unique keys the denoted mapping agrees with first-match lookup:
/// its domain is the key set, pair by pair.
pub proof fn lemma_assoc_map(s: Seq<(Seq<char>, Val)>)
    requires
        unique_keys(s),
    ensures
        assoc_map(s).dom().finite(),
        assoc_map(s).len() == s.len(),
        forall|k: Seq<char>| #[trigger]
            assoc_map(s).contains_key(k) ==> obj_lookup(s, k) is Some,
        forall|k: Seq<char>|
            (#[trigger] obj_lookup(s, k)) matches Some(v) ==> assoc_map(s).contains_key(k)
                && assoc_map(s)[k] == v,
        forall|i: int|
            0 <= i < s.len() ==> assoc_map(s).contains_key((#[trigger] s[i]).0) && assoc_map(
                s,
            )[s[i].0] == s[i].1,
    decreases s,
{
    if s.len() == 0 {
    } else {
        let t = s.drop_last();
        let p = s.last();
        assert(forall|i: int, j: int|
            0 <= i < j < t.len() ==> (#[trigger] t[i]).0 != (#[trigger] t[j]).0);
        lemma_assoc_map(t);
        assert(s =~= t.push(p));
        lemma_obj_lookup_occurs(t, p.0);
        if assoc_map(t).contains_key(p.0) {
            let i = choose|i: int| 0 <= i < t.len() && t[i].0 == p.0;
            assert(s[i].0 == s[t.len() as int].0);
            assert(false);
        }
        assert forall|k: Seq<char>| true implies obj_lookup(s, k) == obj_lookup(
            t.push(p),
            k,
        ) by {}
        assert forall|k: Seq<char>| true implies #[trigger] obj_lookup(t.push(p), k) == (
        if obj_lookup(t, k) is Some {
            obj_lookup(t, k)
        } else if p.0 == k {
            Some(p.1)
        } else {
            None::<Val>
        }) by {
            lemma_obj_lookup_push(t, p, k);
        }
    }
}

/// Removing the one pair that carries a key removes that key from the
/// denoted mapping and nothing else.
proof fn lemma_assoc_map_remove(s: Seq<(Seq<char>, Val)>, i: int)
    requires
        unique_keys(s),
        0 <= i < s.len(),
    ensures
        unique_keys(s.remove(i)),
        s.remove(i).len() == s.len() - 1,
        assoc_map(s.remove(i)) == assoc_map(s).remove(s[i].0),
    decreases s,
{
    let t = s.drop_last();
    let p = s.last();
    assert(forall|i2: int, j: int|
        0 <= i2 < j < t.len() ==> (#[trigger] t[i2]).0 != (#[trigger] t[j]).0);
    assert(forall|j: int| 0 <= j < i ==> s.remove(i)[j] == s[j]);
    assert(forall|j: int| i <= j < s.len() - 1 ==> s.remove(i)[j] == s[j + 1]);
    assert(forall|i2: int, j: int|
        0 <= i2 < j < s.remove(i).len() ==> (#[trigger] s.remove(i)[i2]).0 != (
        #[trigger] s.remove(i)[j]).0);
    if i == s.len() - 1 {
        assert(s.remove(i) =~= t);
        lemma_assoc_map(t);
        lemma_obj_lookup_occurs(t, p.0);
        if assoc_map(t).contains_key(p.0) {
            let j = choose|j: int| 0 <= j < t.len() && t[j].0 == p.0;
            assert(s[j].0 == s[i].0);
            assert(false);
        }
        assert(assoc_map(s) == assoc_map(t).insert(p.0, p.1));
        assert(assoc_map(t).insert(p.0, p.1).remove(p.0) =~= assoc_map(t));
    } else {
        lemma_assoc_map_remove(t, i);
        assert(s.remove(i) =~= t.remove(i).push(p));
        assert(s.remove(i).drop_last() =~= t.remove(i));
        assert(s.remove(i).last() == p);
        assert(assoc_map(s.remove(i)) == assoc_map(t.remove(i)).insert(p.0, p.1));
        assert(t[i] == s[i]);
        assert(s[i].0 != p.0);
        assert(assoc_map(t).remove(s[i].0).insert(p.0, p.1) =~= assoc_map(t).insert(
            p.0,
            p.1,
        ).remove(s[i].0));
    }
}

/// Set `key` to `value` in an entry row with unique keys: the pair
/// carrying the key is replaced, or a new pair is added at the end.
#[verifier::loop_isolation(false)]
fn store_set(store: &mut Vec<(String, Value)>, key: String, value: Value)
    requires
        unique_keys(obj_view(old(store)@)),
    ensures
        unique_keys(obj_view(final(store)@)),
        assoc_map(obj_view(final(store)@)) == assoc_map(obj_view(old(store)@)).insert(
            key@,
            value@,
        ),
        seq_has_key(obj_view(old(store)@), key@) ==> obj_view(final(store)@).len() == obj_view(
            old(store)@,
        ).len(),
        !seq_has_key(obj_view(old(store)@), key@) ==> obj_view(final(store)@).len() == obj_view(
            old(store)@,
        ).len() + 1,
{
    broadcast use group_value_views;

    let ghost s0 = obj_view(store@);
    let mut i: usize = 0;
    while i < store.len()
        invariant
            i <= store@.len(),
            store@ == old(store)@,
            forall|j: int| 0 <= j < i ==> (#[trigger] s0[j]).0 != key@,
        decreases store@.len() - i,
    {
        if str_eq(key.as_str(), store[i].0.as_str()) {
            proof {
                lemma_assoc_map_remove(s0, i as int);
            }
            let _removed = store.remove(i);
            proof {
                assert(obj_view(store@) =~= s0.remove(i as int));
            }
            let ghost s1 = obj_view(store@);
            store.push((key, value));
            proof {
                assert(obj_view(store@) =~= s1.push((key@, value@)));
                assert(obj_view(store@).drop_last() =~= s1);
                assert(obj_view(store@).last() == (key@, value@));
                assert(assoc_map(obj_view(store@)) == assoc_map(s1).insert(key@, value@));
                assert(assoc_map(s0).remove(key@).insert(key@, value@) =~= assoc_map(
                    s0,
                ).insert(key@, value@));
                assert forall|a: int, b: int|
                    0 <= a < b < obj_view(store@).len() implies (#[trigger] obj_view(
                    store@,
                )[a]).0 != (#[trigger] obj_view(store@)[b]).0 by {
                    if b == obj_view(store@).len() - 1 {
                        assert(obj_view(store@)[a] == s1[a]);
                        if a < i {
                            assert(s1[a] == s0[a]);
                        } else {
                            assert(s1[a] == s0[a + 1]);
                        }
                    }
                }
                assert(seq_has_key(s0, key@));
            }
            return ;
        }
        i += 1;
    }
    proof {
        if seq_has_key(s0, key@) {
            let j = choose|j: int| 0 <= j < s0.len() && s0[j].0 == key@;
            assert(false);
        }
    }
    store.push((key, value));
    proof {
        assert(obj_view(store@) =~= s0.push((key@, value@)));
        assert(obj_view(store@).drop_last() =~= s0);
        assert(obj_view(store@).last() == (key@, value@));
        assert(assoc_map(obj_view(store@)) == assoc_map(s0).insert(key@, value@));
        assert forall|a: int, b: int|
            0 <= a < b < obj_view(store@).len() implies (#[trigger] obj_view(store@)[a]).0 != (
        #[trigger] obj_view(store@)[b]).0 by {
            if b == obj_view(store@).len() - 1 {
                assert(obj_view(store@)[a] == s0[a]);
            }
        }
    }
}

/// Remove the pair carrying `key` from an entry row with unique keys, if
/// one is there; reports whether one was.
#[verifier::loop_isolation(false)]
fn store_remove(store: &mut Vec<(String, Value)>, key: &str) -> (r: bool)
    requires
        unique_keys(obj_view(old(store)@)),
    ensures
        unique_keys(obj_view(final(store)@)),
        r == seq_has_key(obj_view(old(store)@), key@),
        r ==> assoc_map(obj_view(final(store)@)) == assoc_map(obj_view(old(store)@)).remove(
            key@,
        ) && obj_view(final(store)@).len() == obj_view(old(store)@).len() - 1,
        !r ==> final(store)@ == old(store)@,
{
    broadcast use group_value_views;

    let ghost s0 = obj_view(store@);
    let mut i: usize = 0;
    while i < store.len()
        invariant
            i <= store@.len(),
            store@ == old(store)@,
            forall|j: int| 0 <= j < i ==> (#[trigger] s0[j]).0 != key@,
        decreases store@.len() - i,
    {
        if str_eq(key, store[i].0.as_str()) {
            proof {
                lemma_assoc_map_remove(s0, i as int);
            }
            let _removed = store.remove(i);
            proof {
                assert(obj_view(store@) =~= s0.remove(i as int));
                assert(seq_has_key(s0, key@));
            }
            return true;
        }
        i += 1;
    }
    proof {
        if seq_has_key(s0, key@) {
            let j = choose|j: int| 0 <= j < s0.len() && s0[j].0 == key@;
            assert(false);
        }
    }
    false
}

/// Keys seen through their character sequences.
pub open spec fn key_views(ks: Seq<&str>) -> Seq<Seq<char>> {
    Seq::new(ks.len(), |i: int| ks[i]@)
}

/// The set of keys named in a list.
pub open spec fn key_set(ks: Seq<&str>) -> Set<Seq<char>> {
    Set::new(|k: Seq<char>| exists|j: int| 0 <= j < ks.len() && ks[j]@ == k)
}

/// Conditions seen through their models.
pub open spec fn cond_views(cs: Seq<Condition>) -> Seq<Cond> {
    Seq::new(cs.len(), |i: int| cs[i]@)
}

/// Strings seen through their character sequences.
pub open spec fn str_views(s: Seq<String>) -> Seq<Seq<char>> {
    Seq::new(s.len(), |i: int| s[i]@)
}

/// Key-integer rows seen through their models.
pub open spec fn int_pairs_view(s: Seq<(String, i64)>) -> Seq<(Seq<char>, int)> {
    Seq::new(s.len(), |i: int| (s[i].0@, s[i].1 as int))
}

/// The mapping after applying a row of insertions in order: a later pair
/// with the same key wins.
pub open spec fn map_after_inserts(m: Map<Seq<char>, Val>, e: Seq<(Seq<char>, Val)>) -> Map<
    Seq<char>,
    Val,
>
    decreases e,
{
    if e.len() == 0 {
        m
    } else {
        map_after_inserts(m, e.drop_last()).insert(e.last().0, e.last().1)
    }
}

/// The entries whose value a condition accepts, in store order.
pub open spec fn matching_entries(s: Seq<(Seq<char>, Val)>, c: Cond) -> Seq<(Seq<char>, Val)>
    decreases s,
{
    if s.len() == 0 {
        Seq::empty()
    } else if cond_matches(c, s[0].1) {
        seq![s[0]] + matching_entries(s.drop_first(), c)
    } else {
        matching_entries(s.drop_first(), c)
    }
}

/// Whether every condition of a row accepts the value.
pub open spec fn all_match(cs: Seq<Cond>, v: Val) -> bool {
    forall|i: int| 0 <= i < cs.len() ==> cond_matches(#[trigger] cs[i], v)
}

/// The entries every condition accepts, in store order.
pub open spec fn multi_matching_entries(s: Seq<(Seq<char>, Val)>, cs: Seq<Cond>) -> Seq<
    (Seq<char>, Val),
>
    decreases s,
{
    if s.len() == 0 {
        Seq::empty()
    } else if all_match(cs, s[0].1) {
        seq![s[0]] + multi_matching_entries(s.drop_first(), cs)
    } else {
        multi_matching_entries(s.drop_first(), cs)
    }
}

/// The key-integer pairs of the entries holding the integer variant, in
/// store order.
pub open spec fn integer_entries(s: Seq<(Seq<char>, Val)>) -> Seq<(Seq<char>, int)>
    decreases s,
{
    if s.len() == 0 {
        Seq::empty()
    } else if s[0].1 is VInteger {
        seq![(s[0].0, s[0].1->VInteger_0)] + integer_entries(s.drop_first())
    } else {
        integer_entries(s.drop_first())
    }
}

/// The keys that start with a prefix, in store order.
pub open spec fn prefixed_keys(s: Seq<(Seq<char>, Val)>, p: Seq<char>) -> Seq<Seq<char>>
    decreases s,
{
    if s.len() == 0 {
        Seq::empty()
    } else if has_prefix(s[0].0, p) {
        seq![s[0].0] + prefixed_keys(s.drop_first(), p)
    } else {
        prefixed_keys(s.drop_first(), p)
    }
}

/// Whether every condition of a row accepts a value.
#[verifier::loop_isolation(false)]
fn matches_all(conditions: &Vec<Condition>, v: &Value) -> (r: bool)
    ensures
        r == all_match(cond_views(conditions@), v@),
{
    let mut j: usize = 0;
    while j < conditions.len()
        invariant
            j <= conditions@.len(),
            forall|k: int| 0 <= k < j ==> cond_matches(#[trigger] cond_views(conditions@)[k], v@),
        decreases conditions@.len() - j,
    {
        if !conditions[j].matches(v) {
            proof {
                assert(cond_views(conditions@)[j as int] == conditions@[j as int]@);
            }
            return false;
        }
        proof {
            assert(cond_views(conditions@)[j as int] == conditions@[j as int]@);
        }
        j += 1;
    }
    true
}

/// An ephemeral, derived read-only snapshot of the store's shape; computed
/// on demand and never cached.
pub struct DatabaseStats {
    pub total_entries: usize,
    pub file_size: u64,
    pub auto_save_enabled: bool,
}

/// The database: an owned in-memory mapping from string keys to values, an
/// auto-save policy, and a storage engine for the snapshot codec. Reads
/// and queries never touch the persistence layer; mutating operations
/// under auto-save hand back the snapshot bytes the caller must write.
pub struct Database {
    store: Vec<(String, Value)>,
    storage: StorageEngine,
    auto_save: bool,
}

impl View for Database {
    type V = Map<Seq<char>, Val>;

    /// The mapping the database currently holds.
    closed spec fn view(&self) -> Map<Seq<char>, Val> {
        assoc_map(obj_view(self.store@))
    }
}

impl Database {
    /// The entries as stored, in their current order.
    pub closed spec fn entries(&self) -> Seq<(Seq<char>, Val)> {
        obj_view(self.store@)
    }

    /// Whether mutations that auto-save will hand back snapshot bytes.
    pub closed spec fn auto_save_on(&self) -> bool {
        self.auto_save
    }

    /// The storage engine's target path.
    pub closed spec fn path(&self) -> Seq<char> {
        self.storage.path()
    }

    /// Well-formedness: the store carries each key at most once.
    pub closed spec fn inv(&self) -> bool {
        unique_keys(self.entries())
    }

    /// The mapping and the entry row agree; the row's length is the
    /// mapping's size.
    pub proof fn lemma_view_entries(&self)
        requires
            self.inv(),
        ensures
            self@.dom().finite(),
            self@.len() == self.entries().len(),
            forall|i: int|
                0 <= i < self.entries().len() ==> self@.contains_key(
                    (#[trigger] self.entries()[i]).0,
                ) && self@[self.entries()[i].0] == self.entries()[i].1,
            forall|k: Seq<char>| #[trigger]
                self@.contains_key(k) ==> seq_has_key(self.entries(), k),
    {
        lemma_assoc_map(self.entries());
        assert forall|k: Seq<char>| #[trigger]
            self@.contains_key(k) implies seq_has_key(self.entries(), k) by {
            lemma_obj_lookup_occurs(self.entries(), k);
        }
    }

    /// Create an empty database for the given snapshot path, with
    /// auto-save enabled.
    pub fn new(file_path: &str) -> (r: Database)
        ensures
            r.inv(),
            r@ == Map::<Seq<char>, Val>::empty(),
            r.entries() == Seq::<(Seq<char>, Val)>::empty(),
            r.auto_save_on(),
            r.path() == file_path@,
    {
        let db = Database {
            store: Vec::new(),
            storage: StorageEngine::new(file_path),
            auto_save: true,
        };
        proof {
            assert(db.entries() =~= Seq::<(Seq<char>, Val)>::empty());
        }
        db
    }

    /// Replace the in-memory mapping with the decoded snapshot. No bytes
    /// stand for a missing file: the mapping comes back empty and the call
    /// succeeds, so a first run starts fresh. Malformed bytes are an
    /// error and leave the mapping as it was. Should the snapshot carry a
    /// key twice, the later pair wins, as it would by inserting in order.
    #[verifier::loop_isolation(false)]
    pub fn load(&mut self, bytes: Option<&Vec<u8>>) -> (r: Result<(), DbError>)
        requires
            old(self).inv(),
        ensures
            final(self).inv(),
            final(self).auto_save_on() == old(self).auto_save_on(),
            final(self).path() == old(self).path(),
            bytes is None ==> r is Ok && final(self)@ == Map::<Seq<char>, Val>::empty(),
            bytes matches Some(bs) ==> (match crate::storage::dec_store(bs@) {
                Some(pairs) => r is Ok && final(self)@ == map_after_inserts(
                    Map::empty(),
                    pairs,
                ),
                None => r == Result::<(), DbError>::Err(DbError::SerializationError)
                    && final(self)@ == old(self)@ && final(self).entries() == old(
                    self,
                ).entries(),
            }),
    {
        broadcast use group_value_views;

        match self.storage.load(bytes) {
            Err(e) => Err(e),
            Ok(decoded) => {
                let ghost pairs = obj_view(decoded@);
                let mut fresh: Vec<(String, Value)> = Vec::new();
                proof {
                    assert(obj_view(fresh@) =~= Seq::<(Seq<char>, Val)>::empty());
                    assert(pairs.take(0) =~= Seq::<(Seq<char>, Val)>::empty());
                }
                let mut i: usize = 0;
                while i < decoded.len()
                    invariant
                        i <= decoded@.len(),
                        pairs == obj_view(decoded@),
                        unique_keys(obj_view(fresh@)),
                        assoc_map(obj_view(fresh@)) == map_after_inserts(
                            Map::empty(),
                            pairs.take(i as int),
                        ),
                    decreases decoded@.len() - i,
                {
                    let k = decoded[i].0.clone();
                    let v = decoded[i].1.deep_clone();
                    store_set(&mut fresh, k, v);
                    proof {
                        assert(pairs.take(i as int + 1).drop_last() =~= pairs.take(i as int));
                        assert(pairs.take(i as int + 1).last() == pairs[i as int]);
                    }
                    i += 1;
                }
                proof {
                    assert(pairs.take(decoded@.len() as int) =~= pairs);
                }
                self.store = fresh;
                Ok(())
            },
        }
    }

    /// Encode the entire current mapping as the snapshot the file must
    /// hold: one full pass, no partial write.
    pub fn save(&self) -> (r: Vec<u8>)
        ensures
            r@ == enc_store(self.entries()),
    {
        self.storage.save(&self.store)
    }

    /// Turn the auto-save policy on or off; the mapping is untouched.
    pub fn set_auto_save(&mut self, enabled: bool)
        ensures
            final(self).auto_save_on() == enabled,
            final(self)@ == old(self)@,
            final(self).entries() == old(self).entries(),
            final(self).inv() == old(self).inv(),
            final(self).path() == old(self).path(),
    {
        self.auto_save = enabled;
    }

    /// Set `key` to `value`, inserting or overwriting. Under auto-save the
    /// new snapshot bytes come back for the caller to persist; a failed
    /// write at the caller never rolls the in-memory change back.
    pub fn insert(&mut self, key: String, value: Value) -> (r: Option<Vec<u8>>)
        requires
            old(self).inv(),
        ensures
            final(self).inv(),
            final(self)@ == old(self)@.insert(key@, value@),
            final(self).auto_save_on() == old(self).auto_save_on(),
            final(self).path() == old(self).path(),
            r is Some <==> old(self).auto_save_on(),
            r matches Some(bytes) ==> bytes@ == enc_store(final(self).entries()),
    {
        store_set(&mut self.store, key, value);
        if self.auto_save {
            Some(self.storage.save(&self.store))
        } else {
            None
        }
    }

    /// Apply each entry as `insert` would, later duplicates in the same
    /// batch winning, then save once at the end if auto-save is on.
    /// Returns the count of entries processed beside the snapshot bytes.
    #[verifier::loop_isolation(false)]
    pub fn batch_insert(&mut self, entries: Vec<(String, Value)>) -> (r: (
        usize,
        Option<Vec<u8>>,
    ))
        requires
            old(self).inv(),
        ensures
            final(self).inv(),
            final(self)@ == map_after_inserts(old(self)@, obj_view(entries@)),
            final(self).auto_save_on() == old(self).auto_save_on(),
            final(self).path() == old(self).path(),
            r.0 == entries@.len(),
            r.1 is Some <==> old(self).auto_save_on(),
            r.1 matches Some(bytes) ==> bytes@ == enc_store(final(self).entries()),
    {
        broadcast use group_value_views;

        let ghost row = obj_view(entries@);
        let count = entries.len();
        proof {
            assert(row.take(0) =~= Seq::<(Seq<char>, Val)>::empty());
        }
        let mut i: usize = 0;
        while i < entries.len()
            invariant
                i <= entries@.len(),
                row == obj_view(entries@),
                self.inv(),
                self@ == map_after_inserts(old(self)@, row.take(i as int)),
                self.auto_save_on() == old(self).auto_save_on(),
                self.path() == old(self).path(),
            decreases entries@.len() - i,
        {
            let k = entries[i].0.clone();
            let v = entries[i].1.deep_clone();
            store_set(&mut self.store, k, v);
            proof {
                assert(row.take(i as int + 1).drop_last() =~= row.take(i as int));
                assert(row.take(i as int + 1).last() == row[i as int]);
            }
            i += 1;
        }
        proof {
            assert(row.take(entries@.len() as int) =~= row);
        }
        if self.auto_save {
            (count, Some(self.storage.save(&self.store)))
        } else {
            (count, None)
        }
    }

    /// Look one key up; a pure read, no persistence involved.
    pub fn get(&self, key: &str) -> (r: Option<Value>)
        requires
            self.inv(),
        ensures
            r matches Some(v) ==> self@.contains_key(key@) && v@ == self@[key@],
            r is None ==> !self@.contains_key(key@),
    {
        proof {
            lemma_assoc_map(self.entries());
        }
        match crate::value::obj_get(&self.store, key) {
            Some(w) => Some(w.deep_clone()),
            None => None,
        }
    }

    /// Look several keys up at once; keys with no entry are left out, and
    /// the result carries each present key exactly once.
    #[verifier::loop_isolation(false)]
    pub fn batch_get(&self, keys: Vec<&str>) -> (r: Vec<(String, Value)>)
        requires
            self.inv(),
        ensures
            unique_keys(obj_view(r@)),
            forall|i: int|
                0 <= i < obj_view(r@).len() ==> self@.contains_key(
                    (#[trigger] obj_view(r@)[i]).0,
                ) && obj_view(r@)[i].1 == self@[obj_view(r@)[i].0] && key_set(keys@).contains(
                    obj_view(r@)[i].0,
                ),
            forall|j: int|
                0 <= j < keys@.len() && self@.contains_key(#[trigger] keys@[j]@) ==> seq_has_key(
                    obj_view(r@),
                    keys@[j]@,
                ),
    {
        broadcast use group_value_views;

        proof {
            lemma_assoc_map(self.entries());
        }
        let mut res: Vec<(String, Value)> = Vec::new();
        let mut j: usize = 0;
        while j < keys.len()
            invariant
                j <= keys@.len(),
                unique_keys(obj_view(res@)),
                forall|i: int|
                    0 <= i < obj_view(res@).len() ==> self@.contains_key(
                        (#[trigger] obj_view(res@)[i]).0,
                    ) && obj_view(res@)[i].1 == self@[obj_view(res@)[i].0] && key_set(
                        keys@,
                    ).contains(obj_view(res@)[i].0),
                forall|j2: int|
                    0 <= j2 < j && self@.contains_key(#[trigger] keys@[j2]@) ==> seq_has_key(
                        obj_view(res@),
                        keys@[j2]@,
                    ),
            decreases keys@.len() - j,
        {
            let key: &str = keys[j];
            let already = crate::value::obj_get(&res, key);
            if already.is_none() {
                match crate::value::obj_get(&self.store, key) {
                    Some(w) => {
                        let ghost pre = obj_view(res@);
                        proof {
                            lemma_obj_lookup_occurs(pre, key@);
                        }
                        let kown: String = key.to_owned();
                        let v = w.deep_clone();
                        res.push((kown, v));
                        proof {
                            assert(obj_view(res@) =~= pre.push((key@, v@)));
                            assert forall|k2: Seq<char>|
                                seq_has_key(pre, k2) implies seq_has_key(
                                obj_view(res@),
                                k2,
                            ) by {
                                let w = choose|w: int|
                                    0 <= w < pre.len() && (#[trigger] pre[w]).0 == k2;
                                assert(obj_view(res@)[w] == pre[w]);
                            }
                            assert(obj_view(res@)[obj_view(res@).len() - 1].0 == key@);
                            assert forall|a: int, b: int|
                                0 <= a < b < obj_view(res@).len() implies (#[trigger] obj_view(
                                res@,
                            )[a]).0 != (#[trigger] obj_view(res@)[b]).0 by {
                                if b == obj_view(res@).len() - 1 {
                                    assert(obj_view(res@)[a] == pre[a]);
                                }
                            }
                            assert(key_set(keys@).contains(key@));
                        }
                    },
                    None => {
                    },
                }
            }
            proof {
                if self@.contains_key(keys@[j as int]@) {
                    lemma_obj_lookup_occurs(obj_view(res@), keys@[j as int]@);
                }
            }
            j += 1;
        }
        res
    }

    /// Overwrite the value under a key that must already be present; an
    /// absent key is a key-not-found error and the mapping is unchanged.
    /// Unlike `insert`, no auto-save is triggered.
    pub fn update(&mut self, key: &str, value: Value) -> (r: Result<(), DbError>)
        requires
            old(self).inv(),
        ensures
            final(self).inv(),
            final(self).auto_save_on() == old(self).auto_save_on(),
            final(self).path() == old(self).path(),
            old(self)@.contains_key(key@) ==> r is Ok && final(self)@ == old(self)@.insert(
                key@,
                value@,
            ),
            !old(self)@.contains_key(key@) ==> r == Result::<(), DbError>::Err(
                DbError::KeyNotFound,
            ) && final(self)@ == old(self)@ && final(self).entries() == old(self).entries(),
    {
        proof {
            lemma_assoc_map(self.entries());
            lemma_obj_lookup_occurs(self.entries(), key@);
        }
        let present = crate::value::obj_get(&self.store, key).is_some();
        if present {
            store_set(&mut self.store, key.to_owned(), value);
            Ok(())
        } else {
            Err(DbError::KeyNotFound)
        }
    }

    /// Remove the pair under a key that must be present; an absent key is
    /// a key-not-found error and the mapping is unchanged, its count
    /// included. A present key leaves with exactly one entry fewer. No
    /// auto-save is triggered.
    pub fn delete(&mut self, key: &str) -> (r: Result<(), DbError>)
        requires
            old(self).inv(),
        ensures
            final(self).inv(),
            final(self).auto_save_on() == old(self).auto_save_on(),
            final(self).path() == old(self).path(),
            old(self)@.contains_key(key@) ==> r is Ok && final(self)@ == old(self)@.remove(key@)
                && final(self).entries().len() == old(self).entries().len() - 1,
            !old(self)@.contains_key(key@) ==> r == Result::<(), DbError>::Err(
                DbError::KeyNotFound,
            ) && final(self)@ == old(self)@ && final(self).entries() == old(self).entries(),
    {
        proof {
            lemma_assoc_map(self.entries());
            lemma_obj_lookup_occurs(self.entries(), key@);
        }
        if store_remove(&mut self.store, key) {
            Ok(())
        } else {
            Err(DbError::KeyNotFound)
        }
    }

    /// Remove every present key among the given ones, ignoring absent
    /// ones; returns how many were actually removed. No auto-save.
    #[verifier::loop_isolation(false)]
    pub fn batch_delete(&mut self, keys: Vec<&str>) -> (r: usize)
        requires
            old(self).inv(),
        ensures
            final(self).inv(),
            final(self).auto_save_on() == old(self).auto_save_on(),
            final(self).path() == old(self).path(),
            final(self)@ == old(self)@.remove_keys(key_set(keys@)),
            r == old(self).entries().len() - final(self).entries().len(),
    {
        broadcast use group_value_views;

        let ghost all = keys@;
        let initial_len = self.store.len();
        let mut deleted: usize = 0;
        proof {
            assert(old(self)@.remove_keys(key_set(all.take(0))) =~= old(self)@);
        }
        let mut j: usize = 0;
        while j < keys.len()
            invariant
                j <= all.len(),
                all == keys@,
                self.inv(),
                self@ == old(self)@.remove_keys(key_set(all.take(j as int))),
                self.auto_save_on() == old(self).auto_save_on(),
                self.path() == old(self).path(),
                deleted == old(self).entries().len() - self.entries().len(),
                self.entries().len() <= old(self).entries().len(),
            decreases all.len() - j,
        {
            let key: &str = keys[j];
            proof {
                lemma_assoc_map(self.entries());
                lemma_obj_lookup_occurs(self.entries(), key@);
            }
            let ghost pre = self@;
            let removed = store_remove(&mut self.store, key);
            if removed {
                proof {
                    assert(deleted < initial_len);
                }
                deleted += 1;
            }
            proof {
                assert forall|x: Seq<char>|
                    #![trigger self@.contains_key(x)]
                    true implies (self@.contains_key(x) == (old(self)@.contains_key(x)
                    && !key_set(all.take(j as int + 1)).contains(x))) && (self@.contains_key(x)
                    ==> self@[x] == old(self)@[x]) by {
                    if key_set(all.take(j as int)).contains(x) {
                        let w = choose|w: int|
                            0 <= w < all.take(j as int).len() && all.take(j as int)[w]@ == x;
                        assert(all.take(j as int + 1)[w]@ == x);
                        assert(key_set(all.take(j as int + 1)).contains(x));
                    }
                    if key_set(all.take(j as int + 1)).contains(x) && x != key@ {
                        let w = choose|w: int|
                            0 <= w < all.take(j as int + 1).len() && (#[trigger] all.take(
                                j as int + 1,
                            )[w])@ == x;
                        assert(all.take(j as int)[w]@ == x);
                        assert(key_set(all.take(j as int)).contains(x));
                    }
                    if x == key@ {
                        assert(all.take(j as int + 1)[j as int]@ == x);
                        assert(key_set(all.take(j as int + 1)).contains(x));
                    }
                }
                assert(self@ =~= old(self)@.remove_keys(key_set(all.take(j as int + 1))));
            }
            j += 1;
        }
        proof {
            assert(all.take(all.len() as int) =~= all);
        }
        deleted
    }

    /// Every key currently stored, in store order.
    #[verifier::loop_isolation(false)]
    pub fn list_keys(&self) -> (r: Vec<String>)
        ensures
            r@.len() == self.entries().len(),
            forall|i: int| 0 <= i < r@.len() ==> (#[trigger] r@[i])@ == self.entries()[i].0,
    {
        broadcast use group_value_views;

        let mut out: Vec<String> = Vec::new();
        let mut i: usize = 0;
        while i < self.store.len()
            invariant
                i <= self.store@.len(),
                out@.len() == i,
                forall|k: int| 0 <= k < i ==> (#[trigger] out@[k])@ == self.entries()[k].0,
            decreases self.store@.len() - i,
        {
            out.push(self.store[i].0.clone());
            i += 1;
        }
        out
    }

    /// The number of entries: the size of the mapping.
    pub fn count(&self) -> (r: usize)
        requires
            self.inv(),
        ensures
            r == self.entries().len(),
            r == self@.len(),
    {
        broadcast use group_value_views;

        proof {
            lemma_assoc_map(self.entries());
        }
        self.store.len()
    }

    /// Empty the mapping. No auto-save.
    pub fn clear(&mut self)
        ensures
            final(self).inv(),
            final(self)@ == Map::<Seq<char>, Val>::empty(),
            final(self).entries() == Seq::<(Seq<char>, Val)>::empty(),
            final(self).auto_save_on() == old(self).auto_save_on(),
            final(self).path() == old(self).path(),
    {
        self.store.clear();
        proof {
            assert(self.entries() =~= Seq::<(Seq<char>, Val)>::empty());
        }
    }

    /// Whether the mapping currently carries the key; a pure read.
    pub fn contains(&self, key: &str) -> (r: bool)
        requires
            self.inv(),
        ensures
            r == self@.contains_key(key@),
    {
        proof {
            lemma_assoc_map(self.entries());
            lemma_obj_lookup_occurs(self.entries(), key@);
        }
        crate::value::obj_get(&self.store, key).is_some()
    }

    /// The key-integer pairs of every entry holding the integer variant,
    /// in store order.
    #[verifier::loop_isolation(false)]
    pub fn get_all_integers(&self) -> (r: Vec<(String, i64)>)
        ensures
            int_pairs_view(r@) == integer_entries(self.entries()),
    {
        broadcast use group_value_views;

        let ghost target = integer_entries(self.entries());
        let mut out: Vec<(String, i64)> = Vec::new();
        proof {
            assert(self.entries().skip(0) =~= self.entries());
            assert(int_pairs_view(out@) =~= Seq::<(Seq<char>, int)>::empty());
        }
        let mut i: usize = 0;
        while i < self.store.len()
            invariant
                i <= self.store@.len(),
                target == int_pairs_view(out@) + integer_entries(
                    self.entries().skip(i as int),
                ),
            decreases self.store@.len() - i,
        {
            proof {
                assert(self.entries().skip(i as int)[0] == self.entries()[i as int]);
                assert(self.entries().skip(i as int).drop_first() =~= self.entries().skip(
                    i as int + 1,
                ));
            }
            let ghost pre = out@;
            match self.store[i].1.as_integer() {
                Some(n) => {
                    let k = self.store[i].0.clone();
                    out.push((k, n));
                    proof {
                        assert(int_pairs_view(out@) =~= int_pairs_view(pre) + seq![
                            (self.entries()[i as int].0, self.entries()[i as int].1->VInteger_0),
                        ]);
                        assert(int_pairs_view(out@) + integer_entries(
                            self.entries().skip(i as int + 1),
                        ) =~= target);
                    }
                },
                None => {
                },
            }
            i += 1;
        }
        proof {
            assert(integer_entries(self.entries().skip(self.store@.len() as int))
                =~= Seq::<(Seq<char>, int)>::empty());
            assert(int_pairs_view(out@) =~= target);
        }
        out
    }

    /// Full scan: every entry whose value the condition accepts, in store
    /// order. A pure read.
    #[verifier::loop_isolation(false)]
    pub fn query(&self, condition: Condition) -> (r: Vec<(String, Value)>)
        ensures
            obj_view(r@) == matching_entries(self.entries(), condition@),
    {
        broadcast use group_value_views;

        let ghost target = matching_entries(self.entries(), condition@);
        let mut out: Vec<(String, Value)> = Vec::new();
        proof {
            assert(self.entries().skip(0) =~= self.entries());
            assert(obj_view(out@) =~= Seq::<(Seq<char>, Val)>::empty());
        }
        let mut i: usize = 0;
        while i < self.store.len()
            invariant
                i <= self.store@.len(),
                target == obj_view(out@) + matching_entries(
                    self.entries().skip(i as int),
                    condition@,
                ),
            decreases self.store@.len() - i,
        {
            proof {
                assert(self.entries().skip(i as int)[0] == self.entries()[i as int]);
                assert(self.entries().skip(i as int).drop_first() =~= self.entries().skip(
                    i as int + 1,
                ));
            }
            let ghost pre = out@;
            if condition.matches(&self.store[i].1) {
                let k = self.store[i].0.clone();
                let v = self.store[i].1.deep_clone();
                out.push((k, v));
                proof {
                    assert(obj_view(out@) =~= obj_view(pre) + seq![self.entries()[i as int]]);
                    assert(obj_view(out@) + matching_entries(
                        self.entries().skip(i as int + 1),
                        condition@,
                    ) =~= target);
                }
            }
            i += 1;
        }
        proof {
            assert(matching_entries(self.entries().skip(self.store@.len() as int), condition@)
                =~= Seq::<(Seq<char>, Val)>::empty());
            assert(obj_view(out@) =~= target);
        }
        out
    }

    /// Full scan: every entry that all of the conditions accept; an empty
    /// condition row accepts everything. A pure read.
    #[verifier::loop_isolation(false)]
    pub fn query_multiple(&self, conditions: Vec<Condition>) -> (r: Vec<(String, Value)>)
        ensures
            obj_view(r@) == multi_matching_entries(self.entries(), cond_views(conditions@)),
    {
        broadcast use group_value_views;

        let ghost cs = cond_views(conditions@);
        let ghost target = multi_matching_entries(self.entries(), cs);
        let mut out: Vec<(String, Value)> = Vec::new();
        proof {
            assert(self.entries().skip(0) =~= self.entries());
            assert(obj_view(out@) =~= Seq::<(Seq<char>, Val)>::empty());
        }
        let mut i: usize = 0;
        while i < self.store.len()
            invariant
                i <= self.store@.len(),
                cs == cond_views(conditions@),
                target == obj_view(out@) + multi_matching_entries(
                    self.entries().skip(i as int),
                    cs,
                ),
            decreases self.store@.len() - i,
        {
            proof {
                assert(self.entries().skip(i as int)[0] == self.entries()[i as int]);
                assert(self.entries().skip(i as int).drop_first() =~= self.entries().skip(
                    i as int + 1,
                ));
            }
            let ghost pre = out@;
            if matches_all(&conditions, &self.store[i].1) {
                let k = self.store[i].0.clone();
                let v = self.store[i].1.deep_clone();
                out.push((k, v));
                proof {
                    assert(obj_view(out@) =~= obj_view(pre) + seq![self.entries()[i as int]]);
                    assert(obj_view(out@) + multi_matching_entries(
                        self.entries().skip(i as int + 1),
                        cs,
                    ) =~= target);
                }
            }
            i += 1;
        }
        proof {
            assert(multi_matching_entries(self.entries().skip(self.store@.len() as int), cs)
                =~= Seq::<(Seq<char>, Val)>::empty());
            assert(obj_view(out@) =~= target);
        }
        out
    }

    /// The keys whose text starts with the prefix, in store order. A pure
    /// read.
    #[verifier::loop_isolation(false)]
    pub fn keys_with_prefix(&self, prefix: &str) -> (r: Vec<String>)
        ensures
            str_views(r@) == prefixed_keys(self.entries(), prefix@),
    {
        broadcast use group_value_views;

        let ghost target = prefixed_keys(self.entries(), prefix@);
        let mut out: Vec<String> = Vec::new();
        proof {
            assert(self.entries().skip(0) =~= self.entries());
            assert(str_views(out@) =~= Seq::<Seq<char>>::empty());
        }
        let mut i: usize = 0;
        while i < self.store.len()
            invariant
                i <= self.store@.len(),
                target == str_views(out@) + prefixed_keys(
                    self.entries().skip(i as int),
                    prefix@,
                ),
            decreases self.store@.len() - i,
        {
            proof {
                assert(self.entries().skip(i as int)[0] == self.entries()[i as int]);
                assert(self.entries().skip(i as int).drop_first() =~= self.entries().skip(
                    i as int + 1,
                ));
            }
            let ghost pre = out@;
            if str_starts_with(self.store[i].0.as_str(), prefix) {
                out.push(self.store[i].0.clone());
                proof {
                    assert(str_views(out@) =~= str_views(pre) + seq![
                        self.entries()[i as int].0,
                    ]);
                    assert(str_views(out@) + prefixed_keys(
                        self.entries().skip(i as int + 1),
                        prefix@,
                    ) =~= target);
                }
            }
            i += 1;
        }
        proof {
            assert(prefixed_keys(self.entries().skip(self.store@.len() as int), prefix@)
                =~= Seq::<Seq<char>>::empty());
            assert(str_views(out@) =~= target);
        }
        out
    }

    /// A derived snapshot of the store's shape: the entry count, the
    /// on-disk size the caller observed (zero when unavailable), and the
    /// auto-save flag.
    pub fn stats(&self, file_size: u64) -> (r: DatabaseStats)
        requires
            self.inv(),
        ensures
            r.total_entries == self@.len(),
            r.file_size == file_size,
            r.auto_save_enabled == self.auto_save_on(),
    {
        DatabaseStats {
            total_entries: self.count(),
            file_size,
            auto_save_enabled: self.auto_save,
        }
    }
}

/// An empty condition row accepts everything: the scan returns every
/// entry unchanged.
pub proof fn lemma_empty_conditions_match_all(s: Seq<(Seq<char>, Val)>)
    ensures
        multi_matching_entries(s, Seq::<Cond>::empty()) == s,
    decreases s,
{
    if s.len() > 0 {
        lemma_empty_conditions_match_all(s.drop_first());
        assert(seq![s[0]] + s.drop_first() =~= s);
    }
}

/// A pair comes back from a scan exactly when the row holds it and the
/// condition accepts its value.
pub proof fn lemma_matching_entries_contains(
    s: Seq<(Seq<char>, Val)>,
    c: Cond,
    p: (Seq<char>, Val),
)
    ensures
        matching_entries(s, c).contains(p) == (s.contains(p) && cond_matches(c, p.1)),
    decreases s,
{
    if s.len() > 0 {
        lemma_matching_entries_contains(s.drop_first(), c, p);
        if s.contains(p) {
            let w = choose|w: int| 0 <= w < s.len() && s[w] == p;
            if w > 0 {
                assert(s.drop_first()[w - 1] == p);
                assert(s.drop_first().contains(p));
            }
        }
        if s.drop_first().contains(p) {
            let w = choose|w: int| 0 <= w < s.drop_first().len() && s.drop_first()[w] == p;
            assert(s[w + 1] == p);
            assert(s.contains(p));
        }
        if cond_matches(c, s[0].1) {
            let front = seq![s[0]];
            let rest = matching_entries(s.drop_first(), c);
            assert(matching_entries(s, c) == front + rest);
            if matching_entries(s, c).contains(p) {
                let w = choose|w: int|
                    0 <= w < matching_entries(s, c).len() && matching_entries(s, c)[w] == p;
                if w > 0 {
                    assert(rest[w - 1] == p);
                    assert(rest.contains(p));
                } else {
                    assert(p == s[0]);
                    assert(s.contains(p)) by {
                        assert(s[0] == p);
                    }
                }
            }
            if p == s[0] {
                assert((front + rest)[0] == p);
                assert(matching_entries(s, c).contains(p));
            }
            if rest.contains(p) {
                let w = choose|w: int| 0 <= w < rest.len() && rest[w] == p;
                assert((front + rest)[w + 1] == p);
                assert(matching_entries(s, c).contains(p));
            }
        }
    }
}

/// In one batch the later pair for a key wins: after the batch the key
/// holds the value of its last occurrence in the row.
pub proof fn lemma_later_duplicate_wins(
    m: Map<Seq<char>, Val>,
    e: Seq<(Seq<char>, Val)>,
    j: int,
)
    requires
        0 <= j < e.len(),
        forall|k: int| j < k < e.len() ==> (#[trigger] e[k]).0 != e[j].0,
    ensures
        map_after_inserts(m, e).contains_key(e[j].0),
        map_after_inserts(m, e)[e[j].0] == e[j].1,
    decreases e,
{
    if j == e.len() - 1 {
    } else {
        assert(e.drop_last()[j] == e[j]);
        lemma_later_duplicate_wins(m, e.drop_last(), j);
    }
}

/// Round-trip at the database level: decoding the snapshot that `save`
/// wrote yields entries denoting exactly the mapping that was saved.
pub proof fn lemma_database_roundtrip(db: Database)
    requires
        db.inv(),
        crate::storage::store_bounded(db.entries()),
    ensures
        crate::storage::dec_store(enc_store(db.entries())) == Some(db.entries()),
        assoc_map(db.entries()) == db@,
{
    crate::storage::lemma_snapshot_roundtrip(db.entries());
}

} // verus!
