use crate::node::BddPointer;
use fxhash::{FxBuildHasher, FxHasher};
use std::collections::HashMap;
use vstd::prelude::*;

verus! {

#[verifier::external_type_specification]
#[verifier::external_body]
pub struct ExFxHasher(FxHasher);

#[verifier::external_type_specification]
#[verifier::external_body]
#[verifier::reject_recursive_types(H)]
pub struct ExBuildHasherDefault<H>(std::hash::BuildHasherDefault<H>);

/// Key of the node table and of the operation cache: a variable or an operation tag,
/// then two node indices.
pub type TableKey = (u16, usize, usize);

/// A hash table keyed by `TableKey`, hashed with fxhash.
pub type FxTable = HashMap<TableKey, BddPointer, FxBuildHasher>;

/// Relies on `HashMap::with_hasher` given fxhash's `FxBuildHasher`: the new map is empty.
#[verifier::external_body]
pub(crate) fn fx_table_new() -> (table: FxTable)
    ensures
        table@.dom() == Set::<TableKey>::empty(),
{
    HashMap::with_hasher(FxBuildHasher::default())
}

/// Relies on `HashMap::get` over fxhash's `FxHasher`: the entry of the key, if there is one.
/// The keys are tuples of integers, whose `Eq` and `Hash` agree, and `FxHasher` is deterministic.
#[verifier::external_body]
pub(crate) fn fx_table_get(m: &FxTable, k: &TableKey) -> (r: Option<BddPointer>)
    ensures
        r == (if m@.contains_key(*k) {
            Some(m@[*k])
        } else {
            None::<BddPointer>
        }),
{
    m.get(k).copied()
}

/// Relies on `HashMap::insert` over fxhash's `FxHasher`: the key maps to the value afterwards,
/// every other entry is kept.
#[verifier::external_body]
pub(crate) fn fx_table_insert(m: &mut FxTable, k: TableKey, v: BddPointer)
    ensures
        final(m)@ == old(m)@.insert(k, v),
{
    m.insert(k, v);
}

/// Key of the table of finished tasks: the two operand indices of a task.
pub type TaskKey = (usize, usize);

/// A hash table keyed by `TaskKey`, hashed with fxhash.
pub type FxTaskTable = HashMap<TaskKey, BddPointer, FxBuildHasher>;

/// Relies on `HashMap::with_capacity_and_hasher` given fxhash's `FxBuildHasher`: the new map
/// is empty.
#[verifier::external_body]
pub(crate) fn fx_task_table_new(capacity: usize) -> (table: FxTaskTable)
    ensures
        table@.dom() == Set::<TaskKey>::empty(),
{
    HashMap::with_capacity_and_hasher(capacity, FxBuildHasher::default())
}

/// Relies on `HashMap::get` over fxhash's `FxHasher`: the entry of the key, if there is one.
/// The keys are pairs of integers, whose `Eq` and `Hash` agree.
#[verifier::external_body]
pub(crate) fn fx_task_table_get(m: &FxTaskTable, k: &TaskKey) -> (r: Option<BddPointer>)
    ensures
        r == (if m@.contains_key(*k) {
            Some(m@[*k])
        } else {
            None::<BddPointer>
        }),
{
    m.get(k).copied()
}

/// Relies on `HashMap::insert` over fxhash's `FxHasher`: the key maps to the value afterwards,
/// every other entry is kept.
#[verifier::external_body]
pub(crate) fn fx_task_table_insert(m: &mut FxTaskTable, k: TaskKey, v: BddPointer)
    ensures
        final(m)@ == old(m)@.insert(k, v),
{
    m.insert(k, v);
}

} // verus!
