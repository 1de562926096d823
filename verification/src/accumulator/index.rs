//! The position index: which leaf hash stands at which position.
//!
//! The index is a list of entries in the order in which the leaves were
//! added. A deletion drops the entries of the deleted leaves and gives
//! each other entry the position to which its leaf has moved.
use crate::accumulator::transform::{follow, leaf_after, plan_views, RowPlan, RowPlanView};
use crate::accumulator::transform_laws::{lemma_leaf_after_bound, roots_fit};
use crate::accumulator::types::NodeHash;
use vstd::prelude::*;

verus! {

/// One entry of the index: the hash of a leaf and the position of the leaf.
#[derive(Clone, Copy, Debug)]
pub struct IndexEntry {
    pub hash: NodeHash,
    pub position: u64,
}

/// Every entry names a leaf of a forest of `num_leaves` leaves.
pub open spec fn index_ok(index: Seq<IndexEntry>, num_leaves: u64) -> bool {
    forall|i: int| 0 <= i < index.len() ==> (#[trigger] index[i]).position < num_leaves
}

/// The position under which `hash` stands among the first `upto` entries:
/// that of the latest entry with this hash.
pub open spec fn looked_up(index: Seq<IndexEntry>, hash: NodeHash, upto: nat) -> Option<u64>
    decreases upto,
{
    if upto == 0 {
        None
    } else if index[upto - 1].hash == hash {
        Some(index[upto - 1].position)
    } else {
        looked_up(index, hash, (upto - 1) as nat)
    }
}

/// The hashes of those of the first `upto` entries whose leaf is deleted.
pub open spec fn evicted_upto(index: Seq<IndexEntry>, dels: Seq<u64>, upto: nat) -> Seq<NodeHash>
    decreases upto,
{
    if upto == 0 {
        Seq::empty()
    } else {
        let head = evicted_upto(index, dels, (upto - 1) as nat);
        if dels.contains(index[upto - 1].position) {
            head.push(index[upto - 1].hash)
        } else {
            head
        }
    }
}

/// The entry of a leaf after a deletion: none where the leaf is deleted
/// or the schedule leaves it below no root, else its hash with the
/// position to which the schedule moves the leaf.
pub open spec fn moved_entry(
    entry: IndexEntry,
    dels: Seq<u64>,
    plans: Seq<RowPlanView>,
    left: u64,
    forest_rows: u8,
) -> Option<IndexEntry> {
    if dels.contains(entry.position) {
        None
    } else {
        match leaf_after(plans, left, forest_rows, entry.position, 0) {
            Some(position) => Some(IndexEntry { hash: entry.hash, position }),
            None => None,
        }
    }
}

/// The first `upto` entries after a deletion.
pub open spec fn reindexed_upto(
    index: Seq<IndexEntry>,
    dels: Seq<u64>,
    plans: Seq<RowPlanView>,
    left: u64,
    forest_rows: u8,
    upto: nat,
) -> Seq<IndexEntry>
    decreases upto,
{
    if upto == 0 {
        Seq::empty()
    } else {
        let head = reindexed_upto(index, dels, plans, left, forest_rows, (upto - 1) as nat);
        match moved_entry(index[upto - 1], dels, plans, left, forest_rows) {
            Some(entry) => head.push(entry),
            None => head,
        }
    }
}

/// Whether two hashes are the same.
pub fn same_hash(a: &NodeHash, b: &NodeHash) -> (same: bool)
    ensures
        same == (*a == *b),
{
    let mut i: usize = 0;
    while i < 32
        invariant
            i <= 32,
            forall|j: int| 0 <= j < i ==> a@[j] == b@[j],
        decreases 32 - i,
    {
        if a[i] != b[i] {
            return false;
        }
        i += 1;
    }
    proof {
        assert(a@.len() == 32 && b@.len() == 32);
        assert(a@ =~= b@);
        assert(*a == *b);
    }
    true
}

/// Whether `dels` names `position`.
pub fn names(dels: &Vec<u64>, position: u64) -> (found: bool)
    ensures
        found == dels@.contains(position),
{
    let mut i: usize = 0;
    while i < dels.len()
        invariant
            i <= dels@.len(),
            forall|j: int| 0 <= j < i ==> dels@[j] != position,
        decreases dels@.len() - i,
    {
        if dels[i] == position {
            return true;
        }
        i += 1;
    }
    false
}

/// The position under which `hash` stands in the index, if it does.
pub fn lookup(index: &Vec<IndexEntry>, hash: &NodeHash) -> (r: Option<u64>)
    ensures
        r == looked_up(index@, *hash, index@.len()),
{
    let mut i: usize = index.len();
    while i > 0
        invariant
            i <= index@.len(),
            looked_up(index@, *hash, index@.len()) == looked_up(index@, *hash, i as nat),
        decreases i,
    {
        if same_hash(&index[i - 1].hash, hash) {
            return Some(index[i - 1].position);
        }
        i -= 1;
    }
    None
}

/// The hashes of the entries whose leaf is deleted.
pub fn evicted(index: &Vec<IndexEntry>, dels: &Vec<u64>) -> (out: Vec<NodeHash>)
    ensures
        out@ == evicted_upto(index@, dels@, index@.len()),
{
    let mut out: Vec<NodeHash> = Vec::new();
    let mut i: usize = 0;
    while i < index.len()
        invariant
            i <= index@.len(),
            out@ == evicted_upto(index@, dels@, i as nat),
        decreases index@.len() - i,
    {
        if names(dels, index[i].position) {
            out.push(index[i].hash);
        }
        i += 1;
    }
    out
}

/// The index after a deletion: see `reindexed_upto`.
pub fn reindex(
    index: &Vec<IndexEntry>,
    dels: &Vec<u64>,
    rows: &Vec<RowPlan>,
    left: u64,
    forest_rows: u8,
) -> (out: Vec<IndexEntry>)
    requires
        forest_rows < 64,
        roots_fit(plan_views(rows@), left, forest_rows),
    ensures
        out@ == reindexed_upto(index@, dels@, plan_views(rows@), left, forest_rows, index@.len()),
        index_ok(out@, left),
{
    let mut out: Vec<IndexEntry> = Vec::new();
    let mut i: usize = 0;
    while i < index.len()
        invariant
            forest_rows < 64,
            roots_fit(plan_views(rows@), left, forest_rows),
            i <= index@.len(),
            out@ == reindexed_upto(
                index@,
                dels@,
                plan_views(rows@),
                left,
                forest_rows,
                i as nat,
            ),
            index_ok(out@, left),
        decreases index@.len() - i,
    {
        let entry = index[i];
        if !names(dels, entry.position) {
            proof {
                lemma_leaf_after_bound(plan_views(rows@), left, forest_rows, entry.position, 0);
            }
            match follow(rows, left, forest_rows, entry.position) {
                Some(position) => {
                    out.push(IndexEntry { hash: entry.hash, position });
                },
                None => {},
            }
        }
        i += 1;
    }
    out
}

/// A copy of the index.
pub fn copy_index(index: &Vec<IndexEntry>) -> (out: Vec<IndexEntry>)
    ensures
        out@ == index@,
{
    let mut out: Vec<IndexEntry> = Vec::new();
    let mut i: usize = 0;
    while i < index.len()
        invariant
            i <= index@.len(),
            out@ == index@.take(i as int),
        decreases index@.len() - i,
    {
        out.push(index[i]);
        proof {
            assert(index@.take(i + 1) =~= index@.take(i as int).push(index@[i as int]));
        }
        i += 1;
    }
    proof {
        assert(index@.take(index@.len() as int) =~= index@);
    }
    out
}

} // verus!
