//! An entity table: the persisted identity counter and the persisted table of
//! one kind of record, with the records that the table stands for.

use vstd::prelude::*;
use crate::durable::{
    counter_get,
    counter_set,
    counter_value,
    new_counter,
    new_table,
    open_counter,
    open_table,
    table_contents,
    table_entries,
    table_get,
    table_insert,
    table_remove,
    Counter,
    Regions,
    Table,
    MAX_RECORD_SIZE,
};
use crate::model::StoreError;

verus! {

/// A kind of record that an entity table can hold: it has an identity and an
/// exact encoding as bytes.
pub trait Record: Sized + View {
    /// The identity of a record.
    spec fn key(v: Self::V) -> u64;

    /// The bytes that stand for a record.
    spec fn encoding(v: Self::V) -> Seq<u8>;

    fn id(&self) -> (r: u64)
        ensures
            r == Self::key(self@),
    ;

    fn encode(&self) -> (r: Vec<u8>)
        ensures
            r@ == Self::encoding(self@),
    ;

    fn decode(b: &Vec<u8>) -> (r: Option<Self>)
        ensures
            r is Some ==> b@ == Self::encoding(r->0@),
            forall|m: Self::V| b@ == #[trigger] Self::encoding(m) ==> (r is Some && r->0@ == m),
    ;
}

/// `s` lists the records of `m`, each once, by ascending identity.
pub open spec fn is_listing<R: Record>(m: Map<u64, R::V>, s: Seq<R::V>) -> bool {
    &&& forall|i: int, j: int| 0 <= i < j < s.len() ==> R::key(s[i]) < R::key(s[j])
    &&& forall|i: int|
        0 <= i < s.len() ==> m.contains_key(#[trigger] R::key(s[i])) && m[R::key(s[i])] == s[i]
    &&& forall|k: u64| #[trigger] m.contains_key(k) ==> exists|i: int| 0 <= i < s.len() && R::key(s[i]) == k
}

/// A listing of a finite map has one element per key.
pub proof fn lemma_listing_len<R: Record>(m: Map<u64, R::V>, s: Seq<R::V>)
    requires
        is_listing::<R>(m, s),
        m.dom().finite(),
    ensures
        s.len() == m.dom().len(),
{
    let keys = s.map_values(|v: R::V| R::key(v));
    assert(keys.no_duplicates()) by {
        assert forall|i: int, j: int| 0 <= i < keys.len() && 0 <= j < keys.len() && i != j implies keys[i]
            != keys[j] by {
            if i < j {
                assert(R::key(s[i]) < R::key(s[j]));
            } else {
                assert(R::key(s[j]) < R::key(s[i]));
            }
        }
    }
    assert(keys.to_set() =~= m.dom()) by {
        assert forall|k: u64| m.dom().contains(k) implies keys.to_set().contains(k) by {
            assert(m.contains_key(k));
            let i = choose|i: int| 0 <= i < s.len() && R::key(s[i]) == k;
            assert(keys[i] == k);
        }
        assert forall|k: u64| keys.to_set().contains(k) implies m.dom().contains(k) by {
            let i = choose|i: int| 0 <= i < keys.len() && keys[i] == k;
            assert(m.contains_key(R::key(s[i])));
        }
    }
    keys.unique_seq_to_set();
}

/// The views of the records in `v`, in order.
pub open spec fn views<R: Record>(v: Seq<R>) -> Seq<R::V> {
    v.map_values(|x: R| x@)
}

/// `k` counts as handed out by a counter that holds `next`: it is below
/// `next`, or the counter has reached the last identity.
pub open spec fn below_next(k: u64, next: u64) -> bool {
    k < next || next == u64::MAX
}

/// The counter value after raising `next` so that `id` counts as handed out.
pub open spec fn raised(next: u64, id: u64) -> u64 {
    if id < next {
        next
    } else if id == u64::MAX {
        u64::MAX
    } else {
        (id + 1) as u64
    }
}

/// The entry `e` of a table whose counter holds `next` is the encoding of a
/// record under that record's own identity, which counts as handed out.
pub open spec fn loadable<R: Record>(e: (u64, Vec<u8>), next: u64) -> bool {
    exists|m: R::V| e.1@ == R::encoding(m) && R::key(m) == e.0 && below_next(e.0, next)
}

/// Decodes the entries read from a table whose counter holds `next`, in
/// order: `Some` exactly where every entry is loadable, each decoded record
/// then being the one its bytes encode.
pub fn load_entries<R: Record>(entries: &Vec<(u64, Vec<u8>)>, next: u64) -> (r: Option<Vec<R>>)
    ensures
        r is Some <==> forall|i: int| 0 <= i < entries@.len() ==> #[trigger] loadable::<R>(entries@[i], next),
        r matches Some(v) ==> v@.len() == entries@.len() && forall|i: int| 0 <= i < v@.len()
            ==> R::encoding(#[trigger] v@[i]@) == entries@[i].1@ && R::key(v@[i]@) == entries@[i].0,
{
    let mut out: Vec<R> = Vec::new();
    let mut i: usize = 0;
    while i < entries.len()
        invariant
            0 <= i <= entries@.len(),
            out@.len() == i,
            forall|j: int| 0 <= j < i ==> #[trigger] loadable::<R>(entries@[j], next),
            forall|j: int| 0 <= j < out@.len() ==> R::encoding(#[trigger] out@[j]@) == entries@[j].1@
                && R::key(out@[j]@) == entries@[j].0,
        decreases entries@.len() - i,
    {
        let k = entries[i].0;
        let e = &entries[i];
        match R::decode(&e.1) {
            Some(rec) => {
                if rec.id() != k || !(k < next || next == u64::MAX) {
                    proof {
                        assert(!loadable::<R>(entries@[i as int], next));
                    }
                    return None;
                }
                proof {
                    assert(loadable::<R>(entries@[i as int], next));
                }
                out.push(rec);
            },
            None => {
                proof {
                    assert(!loadable::<R>(entries@[i as int], next));
                }
                return None;
            },
        }
        i += 1;
    }
    Some(out)
}

/// The identity counter and the table of one kind of record.
pub struct Entities<R: Record> {
    ids: Counter,
    table: Table,
    records: Ghost<Map<u64, R::V>>,
}

impl<R: Record> Entities<R> {
    /// The records that the table holds, by identity.
    pub closed spec fn records(&self) -> Map<u64, R::V> {
        self.records@
    }

    /// The identity that the next record will get.
    pub closed spec fn next_id(&self) -> u64 {
        counter_value(self.ids)
    }

    /// The table holds exactly the encodings of the records, each under its
    /// own identity, and every identity is below the next one to hand out
    /// (or the counter has reached the last identity, so none is handed out).
    pub closed spec fn wf(&self) -> bool {
        &&& self.records@.dom().finite()
        &&& forall|k: u64| #[trigger]
            table_contents(self.table).contains_key(k) <==> self.records@.contains_key(k)
        &&& forall|k: u64| #[trigger]
            self.records@.contains_key(k) ==> table_contents(self.table)[k] == R::encoding(
                self.records@[k],
            ) && R::key(self.records@[k]) == k && below_next(k, counter_value(self.ids))
    }

    /// An empty table whose counter starts at 0, in regions `counter_region`
    /// and `table_region`, discarding what they held; `None` where the
    /// counter's region cannot grow to hold it.
    pub fn fresh(regions: &Regions, counter_region: u8, table_region: u8) -> (r: Option<Self>)
        requires
            counter_region < 255,
            table_region < 255,
        ensures
            r matches Some(e) ==> e.wf() && e.records() == Map::<u64, R::V>::empty() && e.next_id() == 0,
    {
        let ids = match new_counter(regions, counter_region) {
            Some(c) => c,
            None => return None,
        };
        let table = new_table(regions, table_region);
        Some(Entities { ids, table, records: Ghost(Map::empty()) })
    }

    /// Opens the counter kept in region `counter_region` and the table kept in
    /// region `table_region`, with what they hold; `None` where the counter's
    /// region holds a layout that cannot be read, or where `load_entries`
    /// refuses the table's entries.
    pub fn open(regions: &Regions, counter_region: u8, table_region: u8) -> (r: Option<Self>)
        requires
            counter_region < 255,
            table_region < 255,
        ensures
            r matches Some(e) ==> e.wf(),
    {
        let ids = match open_counter(regions, counter_region) {
            Some(c) => c,
            None => return None,
        };
        let table = open_table(regions, table_region);
        let next = counter_get(&ids);
        let entries = table_entries(&table);
        let loaded: Vec<R> = match load_entries(&entries, next) {
            Some(v) => v,
            None => return None,
        };
        let ghost mut m: Map<u64, R::V> = Map::empty();
        let mut i: usize = 0;
        while i < loaded.len()
            invariant
                0 <= i <= loaded@.len(),
                loaded@.len() == entries@.len(),
                next == counter_value(ids),
                m.dom().finite(),
                forall|j: int| 0 <= j < entries@.len() ==> #[trigger] loadable::<R>(entries@[j], next),
                forall|j: int| 0 <= j < loaded@.len() ==> R::encoding(#[trigger] loaded@[j]@) == entries@[j].1@
                    && R::key(loaded@[j]@) == entries@[j].0,
                forall|j: int| 0 <= j < entries@.len() ==> #[trigger] table_contents(table).contains_key(entries@[j].0)
                    && table_contents(table)[entries@[j].0] == entries@[j].1@,
                forall|k: u64| #[trigger] m.contains_key(k) <==> exists|j: int| 0 <= j < i && entries@[j].0 == k,
                forall|k: u64| #[trigger] m.contains_key(k) ==> table_contents(table)[k] == R::encoding(m[k])
                    && R::key(m[k]) == k && below_next(k, next),
            decreases loaded@.len() - i,
        {
            proof {
                let e = entries@[i as int];
                assert(table_contents(table).contains_key(e.0));
                assert(loadable::<R>(e, next));
                assert(R::encoding(loaded@[i as int]@) == e.1@);
                m = m.insert(e.0, loaded@[i as int]@);
            }
            i += 1;
        }
        Some(Entities { ids, table, records: Ghost(m) })
    }

    /// Every record sits under its own identity, below the next identity to
    /// hand out unless that is the last one, and there are finitely many.
    pub proof fn lemma_keys_below_next(&self)
        requires
            self.wf(),
        ensures
            self.records().dom().finite(),
            forall|k: u64| #[trigger] self.records().contains_key(k) ==> below_next(k, self.next_id())
                && R::key(self.records()[k]) == k,
    {
    }

    /// The identity that the next record will get.
    pub fn peek_next(&self) -> (r: u64)
        ensures
            r == self.next_id(),
    {
        counter_get(&self.ids)
    }

    /// Hands out the next identity: returns the counter's value and persists
    /// that value plus one; `None`, with nothing changed, where the counter
    /// has reached the last identity.
    pub fn allocate(&mut self) -> (r: Option<u64>)
        requires
            old(self).wf(),
        ensures
            final(self).wf(),
            final(self).records() == old(self).records(),
            old(self).next_id() < u64::MAX ==> r == Some(old(self).next_id()) && final(self).next_id()
                == old(self).next_id() + 1,
            old(self).next_id() == u64::MAX ==> r is None && final(self).next_id() == u64::MAX,
    {
        let id = counter_get(&self.ids);
        if id == u64::MAX {
            return None;
        }
        counter_set(&mut self.ids, id + 1);
        Some(id)
    }

    /// Raises the counter so that `id` counts as handed out: to `id + 1`
    /// where it was at or below `id`.
    pub fn raise_past(&mut self, id: u64)
        requires
            old(self).wf(),
        ensures
            final(self).wf(),
            final(self).records() == old(self).records(),
            final(self).next_id() == raised(old(self).next_id(), id),
    {
        let next = counter_get(&self.ids);
        if id < next {
            return;
        }
        if id == u64::MAX {
            counter_set(&mut self.ids, u64::MAX);
        } else {
            counter_set(&mut self.ids, id + 1);
        }
    }

    /// Writes `bytes`, the encoding of the record `v`, under `id`, replacing
    /// any record there.
    pub(crate) fn put_encoded(&mut self, id: u64, bytes: &Vec<u8>, Ghost(v): Ghost<R::V>)
        requires
            old(self).wf(),
            bytes@ == R::encoding(v),
            bytes@.len() <= MAX_RECORD_SIZE,
            R::key(v) == id,
            below_next(id, old(self).next_id()),
        ensures
            final(self).wf(),
            final(self).records() == old(self).records().insert(id, v),
            final(self).next_id() == old(self).next_id(),
    {
        table_insert(&mut self.table, id, bytes);
        proof {
            self.records@ = self.records@.insert(id, v);
        }
    }

    /// The record with identity `id`, if there is one.
    pub fn get(&self, id: u64) -> (r: Option<R>)
        requires
            self.wf(),
        ensures
            r is Some <==> self.records().contains_key(id),
            r is Some ==> r->0@ == self.records()[id] && R::key(r->0@) == id && below_next(id, self.next_id()),
    {
        match table_get(&self.table, id) {
            Some(bytes) => {
                proof {
                    assert(self.records@.contains_key(id));
                }
                R::decode(&bytes)
            },
            None => None,
        }
    }

    /// Takes the record with identity `id` out; whether there was one.
    pub fn remove(&mut self, id: u64) -> (found: bool)
        requires
            old(self).wf(),
        ensures
            final(self).wf(),
            found == old(self).records().contains_key(id),
            final(self).records() == old(self).records().remove(id),
            final(self).next_id() == old(self).next_id(),
    {
        let found = table_remove(&mut self.table, id);
        proof {
            self.records@ = self.records@.remove(id);
        }
        found
    }

    /// Every record, by ascending identity.
    pub fn list(&self) -> (r: Vec<R>)
        requires
            self.wf(),
        ensures
            is_listing::<R>(self.records(), views(r@)),
            self.records().dom().finite(),
            r@.len() == self.records().dom().len(),
    {
        let entries = table_entries(&self.table);
        let mut out: Vec<R> = Vec::new();
        let mut i: usize = 0;
        while i < entries.len()
            invariant
                0 <= i <= entries@.len(),
                self.wf(),
                out@.len() == i,
                forall|i: int, j: int| 0 <= i < j < entries@.len() ==> entries@[i].0 < entries@[j].0,
                forall|i: int| 0 <= i < entries@.len() ==> #[trigger] table_contents(self.table).contains_key(entries@[i].0)
                    && table_contents(self.table)[entries@[i].0] == entries@[i].1@,
                forall|k: u64| #[trigger] table_contents(self.table).contains_key(k)
                    ==> exists|i: int| 0 <= i < entries@.len() && entries@[i].0 == k,
                forall|j: int| 0 <= j < i ==> R::key(#[trigger] out@[j]@) == entries@[j].0
                    && self.records@[entries@[j].0] == out@[j]@,
            decreases entries@.len() - i,
        {
            let bytes = &entries[i].1;
            proof {
                let k = entries@[i as int].0;
                assert(table_contents(self.table).contains_key(k));
                assert(self.records@.contains_key(k));
            }
            match R::decode(bytes) {
                Some(rec) => {
                    out.push(rec);
                },
                None => {
                    proof {
                        assert(false);
                    }
                    return out;
                },
            }
            i += 1;
        }
        proof {
            let s = views(out@);
            assert forall|i: int| 0 <= i < s.len() implies self.records@.contains_key(#[trigger] R::key(s[i]))
                && self.records@[R::key(s[i])] == s[i] by {
                assert(s[i] == out@[i]@);
                assert(table_contents(self.table).contains_key(entries@[i].0));
            }
            assert forall|k: u64| #[trigger] self.records@.contains_key(k) implies exists|i: int|
                0 <= i < s.len() && R::key(s[i]) == k by {
                assert(table_contents(self.table).contains_key(k));
                let i = choose|i: int| 0 <= i < entries@.len() && entries@[i].0 == k;
                assert(s[i] == out@[i]@);
            }
            assert forall|i: int, j: int| 0 <= i < j < s.len() implies R::key(s[i]) < R::key(s[j]) by {
                assert(s[i] == out@[i]@);
                assert(s[j] == out@[j]@);
            }
            lemma_listing_len::<R>(self.records@, s);
        }
        out
    }
}

} // verus!
