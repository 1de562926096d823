//! The sparse forest.
//!
//! A node does not point to its children but to its nieces, the children
//! of its sibling; a root, which has no sibling, points to its own
//! children. What hangs below a node can so be cut off without touching
//! the way to its neighbour.
use crate::accumulator::add_laws::lemma_add_keeps_names;
use crate::accumulator::graft::{
    apply_rows, find_pair, forest_pair, lemma_rows_applied_count, lemma_rows_applied_idle,
    lemma_rows_applied_kind, lemma_rows_applied_rooted, plans_in_forest, rows_applied,
};
use crate::accumulator::index::{
    copy_index, evicted, evicted_upto, index_ok, looked_up, lookup, reindex, reindexed_upto,
    IndexEntry,
};
use crate::accumulator::leaf_laws::{lemma_remove_keeps_names, names_leaves};
use crate::accumulator::remove_laws::lemma_remove_keeps_sound;
use crate::accumulator::soundness::{forest_sound, lemma_add_keeps_sound, lemma_no_trees};
use crate::accumulator::transform::{
    check_dels, plan_views, row_end_of, span, transform, transform_of, valid_dels, RowPlanView,
};
use crate::accumulator::transform_laws::{
    lemma_plan_rows_all_deleted, lemma_roots_named, lemma_transform_fits, lemma_valid_dels_len,
    lemma_valid_rising, schedule_fits,
};
use crate::accumulator::types::{
    is_empty, is_empty_hash, parent_hash, parent_hash_of, AccumulatorError, CacheUpdate, Leaf,
    NodeHash,
};
use crate::accumulator::util::{
    detect_offset, in_forest, lemma_low_bit, lemma_tree_rows_of, popcount, row_start_of, tree_rows,
    tree_rows_of, MAX_LEAVES,
};
use crate::accumulator::util_laws::{lemma_place_in_forest, lemma_row_bounds};
use vstd::prelude::*;

verus! {

/// A node of the forest: its hash and its two nieces.
pub struct PolNode {
    pub data: NodeHash,
    pub l_niece: Option<Box<PolNode>>,
    pub r_niece: Option<Box<PolNode>>,
}

impl PolNode {
    /// A node without nieces.
    pub open spec fn leaf(data: NodeHash) -> PolNode {
        PolNode { data, l_niece: None, r_niece: None }
    }

    /// Both nieces are present.
    pub open spec fn is_auntable(self) -> bool {
        self.l_niece is Some && self.r_niece is Some
    }

    /// Both nieces are absent.
    pub open spec fn is_dead_end(self) -> bool {
        self.l_niece is None && self.r_niece is None
    }

    /// The hash over the two nieces.
    pub open spec fn aunt_hash(self) -> Result<NodeHash, AccumulatorError> {
        if self.is_auntable() {
            parent_hash_of(self.l_niece->0.data, self.r_niece->0.data)
        } else {
            Err(AccumulatorError::StructuralViolation)
        }
    }

    /// The node without its nieces.
    pub open spec fn chopped(self) -> PolNode {
        PolNode::leaf(self.data)
    }

    /// The node without those of its nieces that are dead ends.
    pub open spec fn pruned(self) -> PolNode {
        PolNode {
            data: self.data,
            l_niece: if self.l_niece is Some && self.l_niece->0.is_dead_end() {
                None
            } else {
                self.l_niece
            },
            r_niece: if self.r_niece is Some && self.r_niece->0.is_dead_end() {
                None
            } else {
                self.r_niece
            },
        }
    }

    /// Whether both nieces are present, so that `aunt_op` has its operands.
    pub fn auntable(&self) -> (b: bool)
        ensures
            b == self.is_auntable(),
    {
        self.l_niece.is_some() && self.r_niece.is_some()
    }

    /// Whether both nieces are absent.
    pub fn dead_end(&self) -> (b: bool)
        ensures
            b == self.is_dead_end(),
    {
        self.l_niece.is_none() && self.r_niece.is_none()
    }

    /// The hash of the two nieces. Refused as a structural violation where
    /// a niece is absent, and as an empty operand where one holds no data.
    pub fn aunt_op(&self) -> (r: Result<NodeHash, AccumulatorError>)
        ensures
            r == self.aunt_hash(),
    {
        match (&self.l_niece, &self.r_niece) {
            (Some(l), Some(r)) => parent_hash(l.data, r.data),
            _ => Err(AccumulatorError::StructuralViolation),
        }
    }

    /// Cuts both nieces off.
    pub fn chop(&mut self)
        ensures
            *final(self) == old(self).chopped(),
    {
        self.l_niece = None;
        self.r_niece = None;
    }

    /// Cuts off each niece that is a dead end.
    pub fn prune(&mut self)
        ensures
            *final(self) == old(self).pruned(),
    {
        let left_dead = match &self.l_niece {
            Some(node) => node.dead_end(),
            None => false,
        };
        if left_dead {
            self.l_niece = None;
        }
        let right_dead = match &self.r_niece {
            Some(node) => node.dead_end(),
            None => false,
        };
        if right_dead {
            self.r_niece = None;
        }
    }

    /// A copy of the node and of all that hangs below it.
    pub fn duplicate(&self) -> (copy: PolNode)
        ensures
            copy == *self,
        decreases *self,
    {
        let l = match &self.l_niece {
            Some(node) => Some(Box::new(node.duplicate())),
            None => None,
        };
        let r = match &self.r_niece {
            Some(node) => Some(Box::new(node.duplicate())),
            None => None,
        };
        PolNode { data: self.data, l_niece: l, r_niece: r }
    }
}

impl Clone for PolNode {
    fn clone(&self) -> (copy: Self)
        ensures
            copy == *self,
    {
        self.duplicate()
    }
}

/// What it takes to compute one hash: `sib` holds as its nieces the two
/// children of `dest`.
pub struct HashableNode {
    pub sib: Option<Box<PolNode>>,
    pub dest: Option<Box<PolNode>>,
    pub position: u64,
}

/// Exchanges the contents of two nodes and leaves them where they hang:
/// `a` and `b` exchange their hashes, and their siblings, which hold what
/// lies below them, exchange their nieces.
pub fn pol_swap(a: &mut PolNode, asib: &mut PolNode, b: &mut PolNode, bsib: &mut PolNode)
    ensures
        *final(a) == (PolNode {
            data: old(b).data,
            l_niece: old(a).l_niece,
            r_niece: old(a).r_niece,
        }),
        *final(b) == (PolNode {
            data: old(a).data,
            l_niece: old(b).l_niece,
            r_niece: old(b).r_niece,
        }),
        *final(asib) == (PolNode {
            data: old(asib).data,
            l_niece: old(bsib).l_niece,
            r_niece: old(bsib).r_niece,
        }),
        *final(bsib) == (PolNode {
            data: old(bsib).data,
            l_niece: old(asib).l_niece,
            r_niece: old(asib).r_niece,
        }),
{
    core::mem::swap(&mut a.data, &mut b.data);
    core::mem::swap(&mut asib.l_niece, &mut bsib.l_niece);
    core::mem::swap(&mut asib.r_niece, &mut bsib.r_niece);
}

/// How many roots the next leaf joins on its way up: the set bits that
/// end `n`.
pub open spec fn merge_count(n: u64) -> nat
    decreases n,
{
    if n % 2 == 1 {
        1 + merge_count(n / 2)
    } else {
        0
    }
}

/// The hash that a new leaf `data` carries after it has joined the last
/// `steps` roots.
pub open spec fn climb_hash(roots: Seq<PolNode>, data: NodeHash, steps: nat) -> Result<
    NodeHash,
    AccumulatorError,
>
    decreases steps,
{
    if steps == 0 {
        Ok(data)
    } else {
        match climb_hash(roots, data, (steps - 1) as nat) {
            Ok(h) => parent_hash_of(roots[roots.len() - steps].data, h),
            Err(e) => Err(e),
        }
    }
}

/// The node that joins a root with the node that arrives at its row: the
/// two exchange their nieces and become the nieces of the new node, which
/// carries `hash`. Both stay in the forest, with all that hangs below
/// them, until a deletion takes them out.
pub open spec fn merged(left_root: PolNode, node: PolNode, hash: NodeHash) -> PolNode {
    PolNode {
        data: hash,
        l_niece: Some(
            Box::new(
                PolNode { data: left_root.data, l_niece: node.l_niece, r_niece: node.r_niece },
            ),
        ),
        r_niece: Some(
            Box::new(
                PolNode { data: node.data, l_niece: left_root.l_niece, r_niece: left_root.r_niece },
            ),
        ),
    }
}

/// The node that a new leaf `data` has become after it has joined the last
/// `steps` roots.
pub open spec fn climb_node(roots: Seq<PolNode>, data: NodeHash, steps: nat) -> PolNode
    decreases steps,
{
    if steps == 0 {
        PolNode::leaf(data)
    } else {
        merged(
            roots[roots.len() - steps],
            climb_node(roots, data, (steps - 1) as nat),
            climb_hash(roots, data, steps)->Ok_0,
        )
    }
}

/// Every root carries a hash: none is the all-zero hash that stands for
/// a node that is not there.
pub open spec fn roots_hashed(roots: Seq<PolNode>) -> bool {
    forall|i: int| 0 <= i < roots.len() ==> !is_empty_hash((#[trigger] roots[i]).data)
}

/// The roots after a leaf `data` has been added to a forest of
/// `num_leaves` leaves: the leaf joins one root for each set bit that ends
/// `num_leaves`, lowest row first, and what it has become is the new last
/// root. Refused where one of the hashes on the way has an empty operand,
/// or where the new root would carry the empty hash.
pub open spec fn roots_after_add(roots: Seq<PolNode>, data: NodeHash, num_leaves: u64) -> Result<
    Seq<PolNode>,
    AccumulatorError,
> {
    let steps = merge_count(num_leaves);
    match climb_hash(roots, data, steps) {
        Ok(hash) => if is_empty_hash(hash) {
            Err(AccumulatorError::EmptyOperand)
        } else {
            Ok(roots.take(roots.len() - steps).push(climb_node(roots, data, steps)))
        },
        Err(e) => Err(e),
    }
}

/// The hashes of those of the first `upto` leaves that are to be
/// remembered.
pub open spec fn remembered_upto(leaves: Seq<Leaf>, upto: nat) -> Seq<NodeHash>
    decreases upto,
{
    if upto == 0 {
        Seq::empty()
    } else {
        let head = remembered_upto(leaves, (upto - 1) as nat);
        if leaves[upto - 1].remember {
            head.push(leaves[upto - 1].hash)
        } else {
            head
        }
    }
}

/// The roots after the leaves from the `i`-th on have been added, one
/// after the other, to a forest of `num_leaves` leaves.
pub open spec fn adds_from(
    roots: Seq<PolNode>,
    num_leaves: u64,
    leaves: Seq<Leaf>,
    i: nat,
) -> Result<Seq<PolNode>, AccumulatorError>
    decreases leaves.len() - i,
{
    if i >= leaves.len() {
        Ok(roots)
    } else {
        match roots_after_add(roots, leaves[i as int].hash, num_leaves) {
            Err(e) => Err(e),
            Ok(next) => adds_from(next, (num_leaves + 1) as u64, leaves, i + 1),
        }
    }
}

/// The index with the first `upto` of `leaves` entered behind it, the
/// first of them at position `num_leaves`.
pub open spec fn indexed_upto(
    index: Seq<IndexEntry>,
    num_leaves: u64,
    leaves: Seq<Leaf>,
    upto: nat,
) -> Seq<IndexEntry>
    decreases upto,
{
    if upto == 0 {
        index
    } else {
        indexed_upto(index, num_leaves, leaves, (upto - 1) as nat).push(
            IndexEntry {
                hash: leaves[upto - 1].hash,
                position: (num_leaves + upto - 1) as u64,
            },
        )
    }
}

/// The forest after the leaves at `dels` have been deleted: its roots and
/// its leaf count. Nothing changes where `dels` is empty. Else the
/// deletion transform says what to do at each row, and the subtrees that
/// it leaves as roots are the new roots.
pub open spec fn removed(roots: Seq<PolNode>, num_leaves: u64, dels: Seq<u64>) -> Result<
    (Seq<PolNode>, u64),
    AccumulatorError,
> {
    if dels.len() == 0 {
        Ok((roots, num_leaves))
    } else if !valid_dels(dels, num_leaves) {
        Err(AccumulatorError::InvalidPosition)
    } else {
        let left = (num_leaves - dels.len()) as u64;
        match rows_applied(
            roots,
            num_leaves,
            transform_of(dels, num_leaves, tree_rows_of(num_leaves)),
            0,
            Seq::empty(),
        ) {
            Err(e) => Err(e),
            Ok(found) => Ok((found, left)),
        }
    }
}

/// The index after the leaves at `dels` have been deleted from a forest
/// of `num_leaves` leaves: the entries of the deleted leaves are gone,
/// and each other entry has the position to which its leaf has moved.
pub open spec fn index_removed(index: Seq<IndexEntry>, num_leaves: u64, dels: Seq<u64>) -> Seq<
    IndexEntry,
> {
    if dels.len() == 0 {
        index
    } else {
        reindexed_upto(
            index,
            dels,
            transform_of(dels, num_leaves, tree_rows_of(num_leaves)),
            (num_leaves - dels.len()) as u64,
            tree_rows_of(num_leaves),
            index.len(),
        )
    }
}

/// The hashes under which the index held the leaves at `dels`.
pub open spec fn evicted_of(index: Seq<IndexEntry>, dels: Seq<u64>) -> Seq<NodeHash> {
    if dels.len() == 0 {
        Seq::empty()
    } else {
        evicted_upto(index, dels, index.len())
    }
}

/// The forest after the leaves at `dels` have been deleted and then
/// `leaves` have been added: its roots and its leaf count.
pub open spec fn modified(
    roots: Seq<PolNode>,
    num_leaves: u64,
    leaves: Seq<Leaf>,
    dels: Seq<u64>,
) -> Result<(Seq<PolNode>, u64), AccumulatorError> {
    match removed(roots, num_leaves, dels) {
        Err(e) => Err(e),
        Ok((rest, left)) => match adds_from(rest, left, leaves, 0) {
            Err(e) => Err(e),
            Ok(grown) => Ok((grown, (left + leaves.len()) as u64)),
        },
    }
}

/// The last `merge_count` roots go and one comes: the roots keep in step
/// with the set bits of the leaf count.
pub proof fn lemma_merge_count(n: u64)
    requires
        n < u64::MAX,
    ensures
        merge_count(n) <= popcount(n),
        popcount((n + 1) as u64) + merge_count(n) == popcount(n) + 1,
    decreases n,
{
    if n % 2 == 1 {
        lemma_merge_count(n / 2);
        assert((n + 1) / 2 == n / 2 + 1);
    } else {
        assert((n + 1) / 2 == n / 2);
    }
}

/// A hash on the way up is refused for an empty operand only.
pub proof fn lemma_climb_hash_kind(roots: Seq<PolNode>, data: NodeHash, steps: nat)
    ensures
        climb_hash(roots, data, steps) is Err ==> climb_hash(roots, data, steps) == Err::<
            NodeHash,
            AccumulatorError,
        >(AccumulatorError::EmptyOperand),
    decreases steps,
{
    if steps > 0 {
        lemma_climb_hash_kind(roots, data, (steps - 1) as nat);
    }
}

/// A leaf that has joined a root carries a hash.
pub proof fn lemma_climb_hash_leaf(roots: Seq<PolNode>, data: NodeHash, steps: nat)
    requires
        steps >= 1,
        climb_hash(roots, data, steps) is Ok,
    ensures
        !is_empty_hash(data),
    decreases steps,
{
    if steps > 1 {
        assert(climb_hash(roots, data, (steps - 1) as nat) is Ok);
        lemma_climb_hash_leaf(roots, data, (steps - 1) as nat);
    } else {
        assert(climb_hash(roots, data, 0) == Ok::<NodeHash, AccumulatorError>(data));
    }
}

/// Once a hash on the way up is refused, all later ones are.
pub proof fn lemma_climb_hash_err(roots: Seq<PolNode>, data: NodeHash, early: nat, late: nat)
    requires
        early <= late,
        climb_hash(roots, data, early) is Err,
    ensures
        climb_hash(roots, data, late) == climb_hash(roots, data, early),
    decreases late,
{
    if early < late {
        lemma_climb_hash_err(roots, data, early, (late - 1) as nat);
    }
}

/// Joins a root with the node that arrives at its row.
pub fn merge_nodes(left_root: PolNode, node: PolNode, hash: NodeHash) -> (parent: PolNode)
    ensures
        parent == merged(left_root, node, hash),
{
    let mut left_root = left_root;
    let mut node = node;
    core::mem::swap(&mut left_root.l_niece, &mut node.l_niece);
    core::mem::swap(&mut left_root.r_niece, &mut node.r_niece);
    PolNode { data: hash, l_niece: Some(Box::new(left_root)), r_niece: Some(Box::new(node)) }
}

/// A copy of a list of positions.
pub fn copy_positions(positions: &Vec<u64>) -> (out: Vec<u64>)
    ensures
        out@ == positions@,
{
    let mut out: Vec<u64> = Vec::new();
    let mut i: usize = 0;
    while i < positions.len()
        invariant
            i <= positions@.len(),
            out@ == positions@.take(i as int),
        decreases positions@.len() - i,
    {
        out.push(positions[i]);
        proof {
            assert(positions@.take(i + 1) =~= positions@.take(i as int).push(positions@[i as int]));
        }
        i += 1;
    }
    proof {
        assert(positions@.take(positions@.len() as int) =~= positions@);
    }
    out
}

/// The forest: its roots, tallest tree first, the number of leaves that
/// were added and not deleted, and the index of the leaves that were added
/// to it.
pub struct Pollard {
    pub roots: Option<Vec<PolNode>>,
    pub num_leaves: u64,
    pub position_index: Vec<IndexEntry>,
}

impl Pollard {
    /// The roots as a sequence, tallest tree first; none where `roots` is
    /// absent.
    pub open spec fn root_seq(self) -> Seq<PolNode> {
        match self.roots {
            Some(roots) => roots@,
            None => Seq::empty(),
        }
    }

    /// The forest has one root for each set bit of its leaf count, no
    /// more leaves than 64-bit positions can address, and an index that
    /// names leaves of the forest only.
    pub open spec fn wf(self) -> bool {
        &&& self.num_leaves <= MAX_LEAVES
        &&& self.root_seq().len() == popcount(self.num_leaves)
        &&& index_ok(self.position_index@, self.num_leaves)
    }

    /// Every tree of the forest is sound from its root down to its
    /// leaves: each node above the leaves has two children that carry a
    /// hash each, and carries the hash of the two.
    pub open spec fn sound(self) -> bool {
        forest_sound(self.root_seq(), self.num_leaves)
    }

    /// The index is in step with the trees: each entry names a leaf that
    /// carries the hash of the entry.
    pub open spec fn in_step(self) -> bool {
        names_leaves(self.position_index@, self.root_seq(), self.num_leaves)
    }

    /// Every root carries a hash.
    pub open spec fn rooted(self) -> bool {
        roots_hashed(self.root_seq())
    }

    /// An empty forest.
    pub fn new() -> (pollard: Pollard)
        ensures
            pollard.wf(),
            pollard.sound(),
            pollard.in_step(),
            pollard.rooted(),
            pollard.num_leaves == 0,
            pollard.root_seq().len() == 0,
            pollard.roots is None,
            pollard.position_index@.len() == 0,
    {
        proof {
            lemma_no_trees();
        }
        Pollard { roots: None, num_leaves: 0, position_index: Vec::new() }
    }

    /// The position of the leaf that was added last with the hash `hash`
    /// and is still in the forest, if there is one.
    pub fn position_of(&self, hash: &NodeHash) -> (r: Option<u64>)
        ensures
            r == looked_up(self.position_index@, *hash, self.position_index@.len()),
    {
        lookup(&self.position_index, hash)
    }

    /// The hashes that a new leaf takes on while it joins the roots of the
    /// rows that are full, lowest row first. Nothing is changed.
    pub fn climb(&self, utxo: NodeHash) -> (r: Result<Vec<NodeHash>, AccumulatorError>)
        requires
            self.wf(),
        ensures
            match r {
                Ok(hashes) => {
                    &&& hashes@.len() == merge_count(self.num_leaves)
                    &&& forall|i: int|
                        0 <= i < hashes@.len() ==> climb_hash(
                            self.root_seq(),
                            utxo,
                            (i + 1) as nat,
                        ) == Ok::<NodeHash, AccumulatorError>(#[trigger] hashes@[i])
                },
                Err(e) => climb_hash(self.root_seq(), utxo, merge_count(self.num_leaves)) == Err::<
                    NodeHash,
                    AccumulatorError,
                >(e),
            },
    {
        let mut hashes: Vec<NodeHash> = Vec::new();
        let mut rest: u64 = self.num_leaves;
        let mut cur: NodeHash = utxo;
        match &self.roots {
            None => {
                proof {
                    assert(popcount(self.num_leaves) == 0);
                }
                Ok(hashes)
            },
            Some(roots) => {
                let mut idx: usize = roots.len();
                proof {
                    lemma_merge_count(self.num_leaves);
                }
                while rest & 1 == 1
                    invariant
                        roots@ == self.root_seq(),
                        roots@.len() == popcount(self.num_leaves),
                        idx + hashes@.len() == roots@.len(),
                        merge_count(self.num_leaves) == hashes@.len() + merge_count(rest),
                        merge_count(self.num_leaves) <= roots@.len(),
                        climb_hash(roots@, utxo, hashes@.len()) == Ok::<NodeHash, AccumulatorError>(
                            cur,
                        ),
                        forall|i: int|
                            0 <= i < hashes@.len() ==> climb_hash(roots@, utxo, (i + 1) as nat)
                                == Ok::<NodeHash, AccumulatorError>(#[trigger] hashes@[i]),
                    decreases rest,
                {
                    proof {
                        lemma_low_bit(rest, 0);
                    }
                    idx -= 1;
                    match parent_hash(roots[idx].data, cur) {
                        Ok(h) => {
                            cur = h;
                            hashes.push(h);
                        },
                        Err(e) => {
                            proof {
                                lemma_climb_hash_err(
                                    roots@,
                                    utxo,
                                    (hashes@.len() + 1) as nat,
                                    merge_count(self.num_leaves),
                                );
                            }
                            return Err(e);
                        },
                    }
                    rest = rest >> 1;
                }
                proof {
                    lemma_low_bit(rest, 0);
                }
                Ok(hashes)
            },
        }
    }

    /// Adds one leaf: it joins the root of each row that is full, lowest
    /// row first, and what it has become is the new last root. The roots
    /// that it joins stay in the forest below the new root, with all that
    /// hangs below them. The leaf is entered in the index. Returns the
    /// position that the leaf was given; what to remember of the leaf is
    /// for the caller. A leaf without a hash is refused, and so is a hash
    /// on the way with an empty operand, and a new root that would carry
    /// the empty hash: the forest stays as it was then.
    pub fn add_single(&mut self, utxo: NodeHash, remember: bool) -> (r: Result<
        u64,
        AccumulatorError,
    >)
        requires
            old(self).wf(),
            old(self).num_leaves < MAX_LEAVES,
        ensures
            match r {
                Ok(position) => {
                    &&& roots_after_add(old(self).root_seq(), utxo, old(self).num_leaves) == Ok::<
                        Seq<PolNode>,
                        AccumulatorError,
                    >(final(self).root_seq())
                    &&& position == old(self).num_leaves
                    &&& final(self).num_leaves == old(self).num_leaves + 1
                    &&& final(self).position_index@ == old(self).position_index@.push(
                        IndexEntry { hash: utxo, position },
                    )
                    &&& final(self).wf()
                    &&& !is_empty_hash(utxo)
                    &&& !is_empty_hash(final(self).root_seq().last().data)
                },
                Err(e) => {
                    &&& roots_after_add(old(self).root_seq(), utxo, old(self).num_leaves) == Err::<
                        Seq<PolNode>,
                        AccumulatorError,
                    >(e)
                    &&& final(self).root_seq() == old(self).root_seq()
                    &&& final(self).num_leaves == old(self).num_leaves
                    &&& final(self).position_index@ == old(self).position_index@
                    &&& final(self).wf()
                    &&& e == AccumulatorError::EmptyOperand
                },
            },
            old(self).sound() ==> final(self).sound(),
            old(self).in_step() ==> final(self).in_step(),
            old(self).rooted() ==> final(self).rooted(),
    {
        proof {
            lemma_climb_hash_kind(self.root_seq(), utxo, merge_count(self.num_leaves));
            if merge_count(self.num_leaves) >= 1 && climb_hash(
                self.root_seq(),
                utxo,
                merge_count(self.num_leaves),
            ) is Ok {
                lemma_climb_hash_leaf(self.root_seq(), utxo, merge_count(self.num_leaves));
            }
            if self.sound() && roots_after_add(self.root_seq(), utxo, self.num_leaves) is Ok {
                lemma_add_keeps_sound(self.root_seq(), utxo, self.num_leaves);
            }
            if self.in_step() && roots_after_add(self.root_seq(), utxo, self.num_leaves) is Ok {
                lemma_add_keeps_names(
                    self.root_seq(),
                    self.position_index@,
                    utxo,
                    self.num_leaves,
                );
            }
        }
        let hashes = match self.climb(utxo) {
            Ok(hashes) => hashes,
            Err(e) => {
                return Err(e);
            },
        };
        let top = if hashes.len() == 0 {
            utxo
        } else {
            hashes[hashes.len() - 1]
        };
        if is_empty(&top) {
            return Err(AccumulatorError::EmptyOperand);
        }
        let ghost before = self.root_seq();
        let position = self.num_leaves;
        let mut roots: Vec<PolNode> = match self.roots.take() {
            Some(roots) => roots,
            None => Vec::new(),
        };
        let mut node = PolNode { data: utxo, l_niece: None, r_niece: None };
        let mut step: usize = 0;
        proof {
            lemma_merge_count(position);
            assert(before.take(before.len() as int) =~= before);
        }
        while step < hashes.len()
            invariant
                step <= hashes@.len(),
                hashes@.len() == merge_count(position),
                hashes@.len() <= before.len(),
                roots@ == before.take(before.len() - step),
                node == climb_node(before, utxo, step as nat),
                forall|i: int|
                    0 <= i < hashes@.len() ==> climb_hash(before, utxo, (i + 1) as nat) == Ok::<
                        NodeHash,
                        AccumulatorError,
                    >(#[trigger] hashes@[i]),
            decreases hashes@.len() - step,
        {
            let left_root = roots.pop().unwrap();
            node = merge_nodes(left_root, node, hashes[step]);
            proof {
                assert(roots@ =~= before.take(before.len() - step - 1));
            }
            step += 1;
        }
        proof {
            let steps = hashes@.len();
            if steps > 0 {
                assert(climb_hash(before, utxo, steps as nat) == Ok::<NodeHash, AccumulatorError>(
                    hashes@[steps - 1],
                ));
            }
        }
        roots.push(node);
        self.roots = Some(roots);
        self.num_leaves = position + 1;
        self.position_index.push(IndexEntry { hash: utxo, position });
        Ok(position)
    }

    /// A copy of the roots and of all that hangs below them.
    pub fn duplicate_roots(&self) -> (copy: Vec<PolNode>)
        ensures
            copy@ == self.root_seq(),
    {
        let mut copy: Vec<PolNode> = Vec::new();
        match &self.roots {
            None => {},
            Some(roots) => {
                let mut i: usize = 0;
                while i < roots.len()
                    invariant
                        i <= roots@.len(),
                        copy@ == roots@.take(i as int),
                    decreases roots@.len() - i,
                {
                    copy.push(roots[i].duplicate());
                    proof {
                        assert(roots@.take(i + 1) =~= roots@.take(i as int).push(roots@[i as int]));
                    }
                    i += 1;
                }
                proof {
                    assert(roots@.take(roots@.len() as int) =~= roots@);
                }
            },
        }
        copy
    }

    /// The forest without the leaves at `dels`, and the hashes under which
    /// the index held the deleted leaves. The forest itself is left as it
    /// is.
    pub fn removal(&self, dels: Vec<u64>) -> (r: Result<(Pollard, Vec<NodeHash>), AccumulatorError>)
        requires
            self.wf(),
        ensures
            match r {
                Ok((next, gone)) => {
                    &&& removed(self.root_seq(), self.num_leaves, dels@) == Ok::<
                        (Seq<PolNode>, u64),
                        AccumulatorError,
                    >((next.root_seq(), next.num_leaves))
                    &&& next.position_index@ == index_removed(
                        self.position_index@,
                        self.num_leaves,
                        dels@,
                    )
                    &&& gone@ == evicted_of(self.position_index@, dels@)
                    &&& next.wf()
                    &&& next.num_leaves <= self.num_leaves
                    &&& self.sound() ==> next.sound()
                    &&& self.in_step() ==> next.in_step()
                    &&& self.rooted() ==> next.rooted()
                    &&& dels@.len() > 0 ==> next.rooted()
                },
                Err(e) => removed(self.root_seq(), self.num_leaves, dels@) == Err::<
                    (Seq<PolNode>, u64),
                    AccumulatorError,
                >(e),
            },
    {
        proof {
            if self.sound() && removed(self.root_seq(), self.num_leaves, dels@) is Ok {
                lemma_remove_keeps_sound(self.root_seq(), self.num_leaves, dels@);
            }
            if self.in_step() && removed(self.root_seq(), self.num_leaves, dels@) is Ok {
                lemma_remove_keeps_names(
                    self.root_seq(),
                    self.position_index@,
                    self.num_leaves,
                    dels@,
                );
            }
        }
        if dels.len() == 0 {
            let next = Pollard {
                roots: Some(self.duplicate_roots()),
                num_leaves: self.num_leaves,
                position_index: copy_index(&self.position_index),
            };
            return Ok((next, Vec::new()));
        }
        if !check_dels(&dels, self.num_leaves) {
            return Err(AccumulatorError::InvalidPosition);
        }
        proof {
            lemma_valid_dels_len(dels@, self.num_leaves);
            assert(dels@[0] < self.num_leaves);
        }
        let forest_rows = tree_rows(self.num_leaves);
        let left = self.num_leaves - dels.len() as u64;
        let plans = transform(copy_positions(&dels), self.num_leaves, forest_rows);
        let mut work = self.duplicate_roots();
        let found = match apply_rows(&mut work, self.num_leaves, &plans) {
            Ok(found) => found,
            Err(e) => {
                return Err(e);
            },
        };
        proof {
            let views = plan_views(plans@);
            lemma_valid_rising(dels@, self.num_leaves);
            lemma_transform_fits(dels@, self.num_leaves, forest_rows);
            lemma_roots_named(views, left, forest_rows);
            lemma_rows_applied_count(self.root_seq(), self.num_leaves, views, 0, Seq::empty());
            lemma_rows_applied_rooted(self.root_seq(), self.num_leaves, views, 0, Seq::empty());
        }
        let gone = evicted(&self.position_index, &dels);
        let index = reindex(&self.position_index, &dels, &plans, left, forest_rows);
        Ok((Pollard { roots: Some(found), num_leaves: left, position_index: index }, gone))
    }

    /// Deletes the leaves at `dels`, which names them in rising order.
    /// Returns the hashes under which the index held the deleted leaves,
    /// for the caller to evict from its cache. A deletion needs the nodes
    /// that it moves and those that it leaves as roots: where one of them
    /// is absent or carries no hash, or a hash cannot be computed anew,
    /// the deletion is refused. Where it is refused the forest stays as it
    /// was. Where leaves were deleted every root carries a hash.
    pub fn remove(&mut self, dels: Vec<u64>) -> (r: Result<Vec<NodeHash>, AccumulatorError>)
        requires
            old(self).wf(),
        ensures
            match r {
                Ok(gone) => {
                    &&& removed(old(self).root_seq(), old(self).num_leaves, dels@) == Ok::<
                        (Seq<PolNode>, u64),
                        AccumulatorError,
                    >((final(self).root_seq(), final(self).num_leaves))
                    &&& final(self).position_index@ == index_removed(
                        old(self).position_index@,
                        old(self).num_leaves,
                        dels@,
                    )
                    &&& gone@ == evicted_of(old(self).position_index@, dels@)
                    &&& final(self).wf()
                },
                Err(e) => {
                    &&& removed(old(self).root_seq(), old(self).num_leaves, dels@) == Err::<
                        (Seq<PolNode>, u64),
                        AccumulatorError,
                    >(e)
                    &&& final(self).root_seq() == old(self).root_seq()
                    &&& final(self).num_leaves == old(self).num_leaves
                    &&& final(self).position_index@ == old(self).position_index@
                },
            },
            r is Ok ==> final(self).num_leaves + dels@.len() == old(self).num_leaves,
            (dels@.len() > 0 && !valid_dels(dels@, old(self).num_leaves)) <==> r == Err::<
                Vec<NodeHash>,
                AccumulatorError,
            >(AccumulatorError::InvalidPosition),
            old(self).sound() ==> final(self).sound(),
            old(self).in_step() ==> final(self).in_step(),
            old(self).rooted() ==> final(self).rooted(),
            r is Ok && dels@.len() > 0 ==> final(self).rooted(),
    {
        if dels.len() == 0 {
            return Ok(Vec::new());
        }
        proof {
            if valid_dels(dels@, self.num_leaves) {
                lemma_valid_dels_len(dels@, self.num_leaves);
                lemma_removed_kind(self.root_seq(), self.num_leaves, dels@);
            }
        }
        match self.removal(dels) {
            Ok((next, gone)) => {
                *self = next;
                Ok(gone)
            },
            Err(e) => Err(e),
        }
    }

    /// Copies of the node at `pos` and of its sibling, and the two once
    /// more as what it takes to hash: the node as `sib`, its sibling as
    /// `dest`. Refused where the forest has no such position, or where a
    /// node on the way, the node or its sibling is absent.
    pub fn grab_pos(&self, pos: u64) -> (r: Result<
        (PolNode, PolNode, HashableNode),
        AccumulatorError,
    >)
        ensures
            match r {
                Ok((node, sibling, hashable)) => {
                    &&& forest_pair(self.root_seq(), self.num_leaves, pos) == Ok::<
                        (PolNode, PolNode),
                        AccumulatorError,
                    >((node, sibling))
                    &&& hashable == (HashableNode {
                        sib: Some(Box::new(node)),
                        dest: Some(Box::new(sibling)),
                        position: pos,
                    })
                },
                Err(e) => forest_pair(self.root_seq(), self.num_leaves, pos) == Err::<
                    (PolNode, PolNode),
                    AccumulatorError,
                >(e),
            },
    {
        let (tree, branch, bits) = match detect_offset(pos, self.num_leaves) {
            Ok(offset) => offset,
            Err(e) => {
                return Err(e);
            },
        };
        match &self.roots {
            None => Err(AccumulatorError::StructuralViolation),
            Some(roots) => {
                if tree as usize >= roots.len() {
                    return Err(AccumulatorError::StructuralViolation);
                }
                match find_pair(&roots[tree as usize], branch, bits) {
                    None => Err(AccumulatorError::StructuralViolation),
                    Some((target, sibling)) => {
                        let hashable = HashableNode {
                            sib: Some(Box::new(target.duplicate())),
                            dest: Some(Box::new(sibling.duplicate())),
                            position: pos,
                        };
                        Ok((target.duplicate(), sibling.duplicate(), hashable))
                    },
                }
            },
        }
    }

    /// Adds the leaves one after the other. Where a leaf is refused the
    /// forest is left with the leaves before it.
    fn add_all(&mut self, adds: &Vec<Leaf>) -> (r: Result<Vec<NodeHash>, AccumulatorError>)
        requires
            old(self).wf(),
            old(self).num_leaves + adds@.len() <= MAX_LEAVES,
        ensures
            match r {
                Ok(kept) => {
                    &&& adds_from(old(self).root_seq(), old(self).num_leaves, adds@, 0) == Ok::<
                        Seq<PolNode>,
                        AccumulatorError,
                    >(final(self).root_seq())
                    &&& final(self).num_leaves == old(self).num_leaves + adds@.len()
                    &&& final(self).position_index@ == indexed_upto(
                        old(self).position_index@,
                        old(self).num_leaves,
                        adds@,
                        adds@.len(),
                    )
                    &&& final(self).wf()
                    &&& kept@ == remembered_upto(adds@, adds@.len())
                    &&& old(self).sound() ==> final(self).sound()
                    &&& old(self).in_step() ==> final(self).in_step()
                    &&& old(self).rooted() ==> final(self).rooted()
                },
                Err(e) => {
                    &&& adds_from(old(self).root_seq(), old(self).num_leaves, adds@, 0) == Err::<
                        Seq<PolNode>,
                        AccumulatorError,
                    >(e)
                    &&& final(self).position_index@.len() >= old(self).position_index@.len()
                    &&& final(self).position_index@.take(old(self).position_index@.len() as int)
                        == old(self).position_index@
                },
            },
    {
        let mut kept: Vec<NodeHash> = Vec::new();
        let mut i: usize = 0;
        proof {
            assert(self.position_index@.take(self.position_index@.len() as int)
                =~= self.position_index@);
        }
        while i < adds.len()
            invariant
                i <= adds@.len(),
                self.wf(),
                self.num_leaves == old(self).num_leaves + i,
                old(self).num_leaves + adds@.len() <= MAX_LEAVES,
                adds_from(old(self).root_seq(), old(self).num_leaves, adds@, 0) == adds_from(
                    self.root_seq(),
                    self.num_leaves,
                    adds@,
                    i as nat,
                ),
                self.position_index@ == indexed_upto(
                    old(self).position_index@,
                    old(self).num_leaves,
                    adds@,
                    i as nat,
                ),
                self.position_index@.len() >= old(self).position_index@.len(),
                self.position_index@.take(old(self).position_index@.len() as int) == old(
                    self,
                ).position_index@,
                old(self).sound() ==> self.sound(),
                old(self).in_step() ==> self.in_step(),
                old(self).rooted() ==> self.rooted(),
                kept@ == remembered_upto(adds@, i as nat),
            decreases adds@.len() - i,
        {
            let ghost index = self.position_index@;
            match self.add_single(adds[i].hash, adds[i].remember) {
                Ok(_) => {},
                Err(e) => {
                    return Err(e);
                },
            }
            proof {
                assert(self.position_index@.take(old(self).position_index@.len() as int)
                    =~= index.take(old(self).position_index@.len() as int));
            }
            if adds[i].remember {
                kept.push(adds[i].hash);
            }
            i += 1;
        }
        Ok(kept)
    }

    /// Adds the leaves in the order given, which decides where each comes
    /// to stand, and enters them in the index. Returns the hashes of the
    /// leaves that ask to be remembered, for the caller to hand to its
    /// cache. Where a leaf is refused the forest stays as it was.
    pub fn add(&mut self, adds: Vec<Leaf>) -> (r: Result<Vec<NodeHash>, AccumulatorError>)
        requires
            old(self).wf(),
            old(self).num_leaves + adds@.len() <= MAX_LEAVES,
        ensures
            match r {
                Ok(kept) => {
                    &&& adds_from(old(self).root_seq(), old(self).num_leaves, adds@, 0) == Ok::<
                        Seq<PolNode>,
                        AccumulatorError,
                    >(final(self).root_seq())
                    &&& final(self).num_leaves == old(self).num_leaves + adds@.len()
                    &&& final(self).position_index@ == indexed_upto(
                        old(self).position_index@,
                        old(self).num_leaves,
                        adds@,
                        adds@.len(),
                    )
                    &&& final(self).wf()
                    &&& kept@ == remembered_upto(adds@, adds@.len())
                },
                Err(e) => {
                    &&& adds_from(old(self).root_seq(), old(self).num_leaves, adds@, 0) == Err::<
                        Seq<PolNode>,
                        AccumulatorError,
                    >(e)
                    &&& final(self).root_seq() == old(self).root_seq()
                    &&& final(self).num_leaves == old(self).num_leaves
                    &&& final(self).position_index@ == old(self).position_index@
                },
            },
            old(self).sound() ==> final(self).sound(),
            old(self).in_step() ==> final(self).in_step(),
            old(self).rooted() ==> final(self).rooted(),
    {
        if adds.len() == 1 {
            // one leaf is added at once or not at all
            let leaf = adds[0];
            proof {
                assert(remembered_upto(adds@, 0) =~= Seq::<NodeHash>::empty());
                assert(indexed_upto(
                    self.position_index@,
                    self.num_leaves,
                    adds@,
                    0,
                ) == self.position_index@);
            }
            return match self.add_single(leaf.hash, leaf.remember) {
                Ok(_) => {
                    let mut kept: Vec<NodeHash> = Vec::new();
                    if leaf.remember {
                        kept.push(leaf.hash);
                    }
                    proof {
                        assert(adds_from(self.root_seq(), self.num_leaves, adds@, 1) == Ok::<
                            Seq<PolNode>,
                            AccumulatorError,
                        >(self.root_seq()));
                        assert(kept@ =~= remembered_upto(adds@, 1));
                        assert(adds@[0] == leaf);
                    }
                    Ok(kept)
                },
                Err(e) => Err(e),
            };
        }
        let mut index: Vec<IndexEntry> = Vec::new();
        core::mem::swap(&mut index, &mut self.position_index);
        let entries = index.len();
        let mut next = Pollard {
            roots: Some(self.duplicate_roots()),
            num_leaves: self.num_leaves,
            position_index: index,
        };
        match next.add_all(&adds) {
            Ok(kept) => {
                *self = next;
                Ok(kept)
            },
            Err(e) => {
                let mut index = next.position_index;
                index.truncate(entries);
                self.position_index = index;
                Err(e)
            },
        }
    }

    /// Changes the forest: the leaves at `stxos` are deleted, then `utxos`
    /// are added, always in this order. Returns what the caller's cache is
    /// to do: the hashes of the added leaves that ask to be remembered,
    /// and the hashes under which the index held the deleted leaves. Where
    /// either step is refused the forest stays as it was.
    pub fn modify(&mut self, utxos: Vec<Leaf>, stxos: Vec<u64>) -> (r: Result<
        CacheUpdate,
        AccumulatorError,
    >)
        requires
            old(self).wf(),
            old(self).num_leaves + utxos@.len() <= MAX_LEAVES,
        ensures
            match r {
                Ok(update) => {
                    &&& modified(old(self).root_seq(), old(self).num_leaves, utxos@, stxos@)
                        == Ok::<(Seq<PolNode>, u64), AccumulatorError>(
                        (final(self).root_seq(), final(self).num_leaves),
                    )
                    &&& final(self).position_index@ == indexed_upto(
                        index_removed(old(self).position_index@, old(self).num_leaves, stxos@),
                        removed(old(self).root_seq(), old(self).num_leaves, stxos@)->Ok_0.1,
                        utxos@,
                        utxos@.len(),
                    )
                    &&& final(self).wf()
                    &&& update.put@ == remembered_upto(utxos@, utxos@.len())
                    &&& update.evict@ == evicted_of(old(self).position_index@, stxos@)
                },
                Err(e) => {
                    &&& modified(old(self).root_seq(), old(self).num_leaves, utxos@, stxos@)
                        == Err::<(Seq<PolNode>, u64), AccumulatorError>(e)
                    &&& final(self).root_seq() == old(self).root_seq()
                    &&& final(self).num_leaves == old(self).num_leaves
                    &&& final(self).position_index@ == old(self).position_index@
                },
            },
            old(self).sound() ==> final(self).sound(),
            old(self).in_step() ==> final(self).in_step(),
            old(self).rooted() ==> final(self).rooted(),
    {
        if stxos.len() == 0 {
            // nothing goes: the index stays where it is
            return match self.add(utxos) {
                Ok(kept) => Ok(CacheUpdate { put: kept, evict: Vec::new() }),
                Err(e) => Err(e),
            };
        }
        let (mut next, gone) = match self.removal(stxos) {
            Ok(result) => result,
            Err(e) => {
                return Err(e);
            },
        };
        match next.add_all(&utxos) {
            Ok(kept) => {
                *self = next;
                Ok(CacheUpdate { put: kept, evict: gone })
            },
            Err(e) => Err(e),
        }
    }
}

/// A schedule that keeps to its rows names positions of the forest only.
pub proof fn lemma_schedule_in_forest(plans: Seq<RowPlanView>, num_leaves: u64, left: u64)
    requires
        0 < num_leaves <= MAX_LEAVES,
        schedule_fits(plans, num_leaves, left, tree_rows_of(num_leaves)),
    ensures
        plans_in_forest(plans, num_leaves, 0),
{
    let forest_rows = tree_rows_of(num_leaves);
    lemma_tree_rows_of(num_leaves);
    assert forall|r: int| 0 <= r < plans.len() implies {
        &&& forall|i: int|
            0 <= i < (#[trigger] plans[r]).dirty.len() ==> in_forest(plans[r].dirty[i], num_leaves)
        &&& forall|i: int|
            0 <= i < plans[r].swaps.len() ==> in_forest(plans[r].swaps[i].from, num_leaves)
                && in_forest(plans[r].swaps[i].to, num_leaves)
        &&& plans[r].root is Some ==> in_forest(plans[r].root->Some_0, num_leaves)
    } by {
        let plan = plans[r];
        let row = r as u8;
        lemma_row_bounds(num_leaves, row, forest_rows, 0);
        assert forall|i: int| 0 <= i < plan.dirty.len() implies in_forest(
            plan.dirty[i],
            num_leaves,
        ) by {
            lemma_place_in_forest(plan.dirty[i], num_leaves, row);
        }
        assert forall|i: int| 0 <= i < plan.swaps.len() implies in_forest(
            plan.swaps[i].from,
            num_leaves,
        ) && in_forest(plan.swaps[i].to, num_leaves) by {
            lemma_place_in_forest(plan.swaps[i].from, num_leaves, row);
            lemma_place_in_forest(plan.swaps[i].to, num_leaves, row);
        }
        if plan.root is Some {
            lemma_place_in_forest(plan.root->Some_0, num_leaves, row);
        }
    }
}

/// Leaves that are named in order are deleted unless a node that the
/// deletion has to read is absent or holds no data: no position of the
/// schedule lies outside the forest.
pub proof fn lemma_removed_kind(roots: Seq<PolNode>, num_leaves: u64, dels: Seq<u64>)
    requires
        num_leaves <= MAX_LEAVES,
        valid_dels(dels, num_leaves),
    ensures
        removed(roots, num_leaves, dels) != Err::<(Seq<PolNode>, u64), AccumulatorError>(
            AccumulatorError::InvalidPosition,
        ),
{
    if dels.len() > 0 {
        let forest_rows = tree_rows_of(num_leaves);
        assert(dels[0] < num_leaves);
        lemma_tree_rows_of(num_leaves);
        lemma_valid_dels_len(dels, num_leaves);
        lemma_valid_rising(dels, num_leaves);
        lemma_transform_fits(dels, num_leaves, forest_rows);
        let plans = transform_of(dels, num_leaves, forest_rows);
        lemma_schedule_in_forest(plans, num_leaves, (num_leaves - dels.len()) as u64);
        lemma_rows_applied_kind(roots, num_leaves, plans, 0, Seq::empty());
    }
}

proof fn lemma_reindexed_all_deleted(
    index: Seq<IndexEntry>,
    num_leaves: u64,
    plans: Seq<RowPlanView>,
    left: u64,
    forest_rows: u8,
    upto: nat,
)
    requires
        index_ok(index, num_leaves),
        upto <= index.len(),
    ensures
        reindexed_upto(index, span(0, num_leaves), plans, left, forest_rows, upto) == Seq::<
            IndexEntry,
        >::empty(),
    decreases upto,
{
    if upto > 0 {
        lemma_reindexed_all_deleted(
            index,
            num_leaves,
            plans,
            left,
            forest_rows,
            (upto - 1) as nat,
        );
        let position = index[upto - 1].position;
        assert(span(0, num_leaves)[position as int] == position);
    }
}

/// Adding leaves and then deleting every leaf gives the empty forest
/// back: whatever a forest holds, the deletion of all its leaves succeeds
/// and leaves no leaf, no root and no entry of the index.
pub proof fn lemma_remove_all(roots: Seq<PolNode>, index: Seq<IndexEntry>, num_leaves: u64)
    requires
        num_leaves <= MAX_LEAVES,
        roots.len() == popcount(num_leaves),
        index_ok(index, num_leaves),
    ensures
        removed(roots, num_leaves, span(0, num_leaves)) == Ok::<
            (Seq<PolNode>, u64),
            AccumulatorError,
        >((Seq::empty(), 0)),
        index_removed(index, num_leaves, span(0, num_leaves)) == Seq::<IndexEntry>::empty(),
{
    let dels = span(0, num_leaves);
    if num_leaves == 0 {
        assert(roots =~= Seq::<PolNode>::empty());
        if index.len() > 0 {
            assert(index[0].position < num_leaves);
        }
        assert(index =~= Seq::<IndexEntry>::empty());
    } else {
        let forest_rows = tree_rows_of(num_leaves);
        lemma_tree_rows_of(num_leaves);
        lemma_row_bounds(num_leaves, 0, forest_rows, 0);
        assert(valid_dels(dels, num_leaves));
        assert(dels == span(
            row_start_of(0, forest_rows),
            row_end_of(num_leaves, 0, forest_rows),
        ));
        lemma_plan_rows_all_deleted(num_leaves, 0, forest_rows, Seq::empty());
        let plans = transform_of(dels, num_leaves, forest_rows);
        lemma_rows_applied_idle(roots, num_leaves, plans, 0, Seq::empty());
        lemma_reindexed_all_deleted(index, num_leaves, plans, 0, forest_rows, index.len());
    }
}

} // verus!
