//! Durable regions, persisted counters and persisted tables, as provided by
//! `ic_stable_structures`.

use vstd::prelude::*;
use ic_stable_structures::memory_manager::{MemoryId, MemoryManager, VirtualMemory};
use ic_stable_structures::storable::Blob;
use ic_stable_structures::{BTreeMap, Cell, DefaultMemoryImpl};

verus! {

/// Largest encoded size of one record, in bytes.
pub const MAX_RECORD_SIZE: usize = 1024;

/// The durable medium, partitioned into independently addressed regions.
#[verifier::external_body]
pub struct Regions {
    manager: MemoryManager<DefaultMemoryImpl>,
}

/// A persisted unsigned counter, held in a region of its own.
#[verifier::external_body]
pub struct Counter {
    cell: Cell<u64, VirtualMemory<DefaultMemoryImpl>>,
}

/// A persisted ordered table from identity to encoded record, held in a
/// region of its own.
#[verifier::external_body]
pub struct Table {
    map: BTreeMap<u64, Blob<1024>, VirtualMemory<DefaultMemoryImpl>>,
}

/// The value that a persisted counter holds.
pub uninterp spec fn counter_value(c: Counter) -> u64;

/// The entries that a persisted table holds, each as its encoded bytes.
pub uninterp spec fn table_contents(t: Table) -> Map<u64, Seq<u8>>;

/// Relies on `MemoryManager::init`: lays the region manager over the default
/// durable medium.
#[verifier::external_body]
pub(crate) fn open_regions() -> (r: Regions) {
    Regions { manager: MemoryManager::init(DefaultMemoryImpl::default()) }
}

/// Relies on `MemoryManager::get` and `Cell::init`: the counter kept in region
/// `id`, starting from 0 where the region holds none yet; `None` where the
/// region holds a counter of a layout that the crate cannot read.
#[verifier::external_body]
pub(crate) fn open_counter(r: &Regions, id: u8) -> (c: Option<Counter>)
    requires
        id < 255,
{
    Cell::init(r.manager.get(MemoryId::new(id)), 0).ok().map(|cell| Counter { cell })
}

/// Relies on `MemoryManager::get` and `BTreeMap::init`: the table kept in
/// region `id`, empty where the region holds none yet.
#[verifier::external_body]
pub(crate) fn open_table(r: &Regions, id: u8) -> (t: Table)
    requires
        id < 255,
{
    Table { map: BTreeMap::init(r.manager.get(MemoryId::new(id))) }
}

/// Relies on `MemoryManager::get` and `Cell::new`: a counter in region `id`
/// that holds 0, overwriting what the region held; `None` where the region
/// cannot grow to hold it.
#[verifier::external_body]
pub(crate) fn new_counter(r: &Regions, id: u8) -> (c: Option<Counter>)
    requires
        id < 255,
    ensures
        c is Some ==> counter_value(c->0) == 0,
{
    Cell::new(r.manager.get(MemoryId::new(id)), 0).ok().map(|cell| Counter { cell })
}

/// Relies on `MemoryManager::get` and `BTreeMap::new`: an empty table in
/// region `id`, overwriting what the region held.
#[verifier::external_body]
pub(crate) fn new_table(r: &Regions, id: u8) -> (t: Table)
    requires
        id < 255,
    ensures
        forall|k: u64| !table_contents(t).contains_key(k),
{
    Table { map: BTreeMap::new(r.manager.get(MemoryId::new(id))) }
}

/// Relies on `Cell::get`: the value that the counter holds.
#[verifier::external_body]
pub(crate) fn counter_get(c: &Counter) -> (r: u64)
    ensures
        r == counter_value(*c),
{
    *c.cell.get()
}

/// Relies on `Cell::set`: the counter holds `v` afterwards. `set` fails
/// only where the memory must grow and cannot; an open counter's region
/// already holds at least one page, far more than a `u64` needs.
#[verifier::external_body]
pub(crate) fn counter_set(c: &mut Counter, v: u64)
    ensures
        counter_value(*final(c)) == v,
{
    let _ = c.cell.set(v);
}

/// Relies on `BTreeMap::get`: the bytes stored under `k`, if any.
#[verifier::external_body]
pub(crate) fn table_get(t: &Table, k: u64) -> (r: Option<Vec<u8>>)
    ensures
        r is Some <==> table_contents(*t).contains_key(k),
        r is Some ==> r->0@ == table_contents(*t)[k],
{
    t.map.get(&k).map(|b| b.as_slice().to_vec())
}

/// Relies on `Blob::try_from` and `BTreeMap::insert`: stores `v` under `k`,
/// replacing what was there.
#[verifier::external_body]
pub(crate) fn table_insert(t: &mut Table, k: u64, v: &Vec<u8>)
    requires
        v@.len() <= MAX_RECORD_SIZE,
    ensures
        table_contents(*final(t)) == table_contents(*old(t)).insert(k, v@),
{
    t.map.insert(k, Blob::try_from(v.as_slice()).unwrap());
}

/// Relies on `BTreeMap::remove`: takes the entry under `k` out, and says
/// whether there was one.
#[verifier::external_body]
pub(crate) fn table_remove(t: &mut Table, k: u64) -> (found: bool)
    ensures
        found == table_contents(*old(t)).contains_key(k),
        table_contents(*final(t)) == table_contents(*old(t)).remove(k),
{
    t.map.remove(&k).is_some()
}

/// Relies on `BTreeMap::iter`: every entry of the table, by ascending key.
#[verifier::external_body]
pub(crate) fn table_entries(t: &Table) -> (r: Vec<(u64, Vec<u8>)>)
    ensures
        forall|i: int, j: int| 0 <= i < j < r@.len() ==> r@[i].0 < r@[j].0,
        forall|i: int| 0 <= i < r@.len() ==> #[trigger] table_contents(*t).contains_key(r@[i].0)
            && table_contents(*t)[r@[i].0] == r@[i].1@,
        forall|k: u64| #[trigger] table_contents(*t).contains_key(k)
            ==> exists|i: int| 0 <= i < r@.len() && r@[i].0 == k,
{
    t.map.iter().map(|(k, b)| (k, b.as_slice().to_vec())).collect()
}

} // verus!
