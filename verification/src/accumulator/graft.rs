//! Cutting and grafting in the forest.
//!
//! A subtree is handled in the shape of a root: its hash with its own two
//! children as nieces. Where it hangs in a tree its hash lies in its node
//! and its children are the nieces of its sibling, so the way to it goes
//! down through the aunts. All changes that a deletion makes come down to
//! exchanging the subtree at a position for another one.
use crate::accumulator::pollard::PolNode;
use crate::accumulator::transform::{idle_plan, plan_views, RowPlan, RowPlanView};
use crate::accumulator::transform_laws::roots_named;
use crate::accumulator::types::{
    empty_hash, empty_hash_of, is_empty, is_empty_hash, lemma_empty_hash, AccumulatorError, Arrow,
};
use crate::accumulator::util::{detect_offset, in_forest, offset_of};
use vstd::prelude::*;

verus! {

/// A node without data and without nieces: what an absent node stands for.
pub open spec fn blank() -> PolNode {
    PolNode::leaf(empty_hash_of())
}

/// What a slot holds, an absent node taken as a blank one.
pub open spec fn held(slot: Option<Box<PolNode>>) -> PolNode {
    match slot {
        Some(node) => *node,
        None => blank(),
    }
}

/// The slot that holds `node`: none where the node is blank.
pub open spec fn settled(node: PolNode) -> Option<Box<PolNode>> {
    if is_empty_hash(node.data) && node.is_dead_end() {
        None
    } else {
        Some(Box::new(node))
    }
}

/// Whether the way down turns right while `level` levels are still to go.
pub open spec fn turns_right(bits: u64, level: nat) -> bool {
    (bits >> ((level - 1) as u8)) & 1 == 1
}

/// Exchanges the subtree that hangs `branch` levels below `node`, at the
/// end of the way `bits`, for `scion`. A subtree is written as a root is:
/// its hash with its own children as nieces. In the tree the hash of the
/// subtree lies in its node and its children are the nieces of its
/// sibling, so the way down goes through the aunts: at each level but the
/// last it enters the niece on the other side of the turn. Returns the
/// tree and the subtree that was there; none where an aunt is absent.
pub open spec fn grafted(node: PolNode, branch: nat, bits: u64, scion: PolNode) -> Option<
    (PolNode, PolNode),
>
    decreases branch,
{
    if branch == 0 {
        Some((scion, node))
    } else if branch == 1 {
        let right = turns_right(bits, branch);
        let target = held(
            if right {
                node.r_niece
            } else {
                node.l_niece
            },
        );
        let sibling = held(
            if right {
                node.l_niece
            } else {
                node.r_niece
            },
        );
        let there = settled(
            PolNode { data: scion.data, l_niece: target.l_niece, r_niece: target.r_niece },
        );
        let beside = settled(
            PolNode { data: sibling.data, l_niece: scion.l_niece, r_niece: scion.r_niece },
        );
        Some(
            (
                PolNode {
                    data: node.data,
                    l_niece: if right {
                        beside
                    } else {
                        there
                    },
                    r_niece: if right {
                        there
                    } else {
                        beside
                    },
                },
                PolNode { data: target.data, l_niece: sibling.l_niece, r_niece: sibling.r_niece },
            ),
        )
    } else {
        let right = turns_right(bits, branch);
        let aunt = if right {
            node.l_niece
        } else {
            node.r_niece
        };
        match aunt {
            None => None,
            Some(aunt) => match grafted(*aunt, (branch - 1) as nat, bits, scion) {
                None => None,
                Some((grown, prior)) => Some(
                    (
                        PolNode {
                            data: node.data,
                            l_niece: if right {
                                Some(Box::new(grown))
                            } else {
                                node.l_niece
                            },
                            r_niece: if right {
                                node.r_niece
                            } else {
                                Some(Box::new(grown))
                            },
                        },
                        prior,
                    ),
                ),
            },
        }
    }
}

/// The node that hangs `branch` levels below `node` at the end of the way
/// `bits`, and its sibling; a root stands for its own sibling. None where
/// a node on the way, the node or its sibling is absent.
pub open spec fn pair_at(node: PolNode, branch: nat, bits: u64) -> Option<(PolNode, PolNode)>
    decreases branch,
{
    if branch == 0 {
        Some((node, node))
    } else if branch == 1 {
        let right = turns_right(bits, branch);
        let target = if right {
            node.r_niece
        } else {
            node.l_niece
        };
        let sibling = if right {
            node.l_niece
        } else {
            node.r_niece
        };
        if target is Some && sibling is Some {
            Some((*target->0, *sibling->0))
        } else {
            None
        }
    } else {
        let aunt = if turns_right(bits, branch) {
            node.l_niece
        } else {
            node.r_niece
        };
        match aunt {
            None => None,
            Some(aunt) => pair_at(*aunt, (branch - 1) as nat, bits),
        }
    }
}

/// Exchanges the subtree at `pos` of the forest for `scion`. Returns the
/// roots and the subtree that was there.
pub open spec fn forest_grafted(
    roots: Seq<PolNode>,
    num_leaves: u64,
    pos: u64,
    scion: PolNode,
) -> Result<(Seq<PolNode>, PolNode), AccumulatorError> {
    if !in_forest(pos, num_leaves) {
        Err(AccumulatorError::InvalidPosition)
    } else {
        let (tree, branch, bits) = offset_of(pos, num_leaves);
        if tree >= roots.len() {
            Err(AccumulatorError::StructuralViolation)
        } else {
            match grafted(roots[tree as int], branch as nat, bits, scion) {
                None => Err(AccumulatorError::StructuralViolation),
                Some((root, prior)) => Ok((roots.update(tree as int, root), prior)),
            }
        }
    }
}

/// The node at `pos` of the forest and its sibling.
pub open spec fn forest_pair(roots: Seq<PolNode>, num_leaves: u64, pos: u64) -> Result<
    (PolNode, PolNode),
    AccumulatorError,
> {
    if !in_forest(pos, num_leaves) {
        Err(AccumulatorError::InvalidPosition)
    } else {
        let (tree, branch, bits) = offset_of(pos, num_leaves);
        if tree >= roots.len() {
            Err(AccumulatorError::StructuralViolation)
        } else {
            match pair_at(roots[tree as int], branch as nat, bits) {
                None => Err(AccumulatorError::StructuralViolation),
                Some(pair) => Ok(pair),
            }
        }
    }
}

/// The roots after the subtrees at the two ends of `arrow` have changed
/// places. Refused where the subtree that is to move carries no hash:
/// its node is absent, or stands for one.
pub open spec fn forest_swapped(roots: Seq<PolNode>, num_leaves: u64, arrow: Arrow) -> Result<
    Seq<PolNode>,
    AccumulatorError,
> {
    match forest_grafted(roots, num_leaves, arrow.from, blank()) {
        Err(e) => Err(e),
        Ok((first, moved)) => if is_empty_hash(moved.data) {
            Err(AccumulatorError::StructuralViolation)
        } else {
            match forest_grafted(first, num_leaves, arrow.to, moved) {
                Err(e) => Err(e),
                Ok((second, dead)) => match forest_grafted(second, num_leaves, arrow.from, dead) {
                    Err(e) => Err(e),
                    Ok((third, _)) => Ok(third),
                },
            }
        },
    }
}

/// The roots after the node at `pos` has been given the hash of its two
/// children.
pub open spec fn forest_rehashed(roots: Seq<PolNode>, num_leaves: u64, pos: u64) -> Result<
    Seq<PolNode>,
    AccumulatorError,
> {
    match forest_grafted(roots, num_leaves, pos, blank()) {
        Err(e) => Err(e),
        Ok((first, subtree)) => match subtree.aunt_hash() {
            Err(e) => Err(e),
            Ok(hash) => match forest_grafted(
                first,
                num_leaves,
                pos,
                PolNode { data: hash, l_niece: subtree.l_niece, r_niece: subtree.r_niece },
            ) {
                Err(e) => Err(e),
                Ok((second, _)) => Ok(second),
            },
        },
    }
}

/// The roots after the positions of `dirty` from the `i`-th on have been
/// given their hash anew, one after the other.
pub open spec fn rehashed_from(
    roots: Seq<PolNode>,
    num_leaves: u64,
    dirty: Seq<u64>,
    i: nat,
) -> Result<Seq<PolNode>, AccumulatorError>
    decreases dirty.len() - i,
{
    if i >= dirty.len() {
        Ok(roots)
    } else {
        match forest_rehashed(roots, num_leaves, dirty[i as int]) {
            Err(e) => Err(e),
            Ok(next) => rehashed_from(next, num_leaves, dirty, i + 1),
        }
    }
}

/// The roots after the swaps from the `i`-th on, one after the other.
pub open spec fn swapped_from(
    roots: Seq<PolNode>,
    num_leaves: u64,
    swaps: Seq<Arrow>,
    i: nat,
) -> Result<Seq<PolNode>, AccumulatorError>
    decreases swaps.len() - i,
{
    if i >= swaps.len() {
        Ok(roots)
    } else {
        match forest_swapped(roots, num_leaves, swaps[i as int]) {
            Err(e) => Err(e),
            Ok(next) => swapped_from(next, num_leaves, swaps, i + 1),
        }
    }
}

/// Carries out the plans from row `row` on: at each row the stale hashes
/// are computed anew, the swaps are made, and the subtree that the plan
/// names as the root of the row is taken out of the forest. Returns the
/// subtrees taken out, the one of the highest row first, before those in
/// `found`. Refused where a subtree that is to be a root carries no hash:
/// its node is absent, or stands for one.
pub open spec fn rows_applied(
    roots: Seq<PolNode>,
    num_leaves: u64,
    plans: Seq<RowPlanView>,
    row: nat,
    found: Seq<PolNode>,
) -> Result<Seq<PolNode>, AccumulatorError>
    decreases plans.len() - row,
{
    if row >= plans.len() {
        Ok(found)
    } else {
        match rehashed_from(roots, num_leaves, plans[row as int].dirty, 0) {
            Err(e) => Err(e),
            Ok(fresh) => match swapped_from(fresh, num_leaves, plans[row as int].swaps, 0) {
                Err(e) => Err(e),
                Ok(packed) => match plans[row as int].root {
                    None => rows_applied(packed, num_leaves, plans, row + 1, found),
                    Some(pos) => match forest_grafted(packed, num_leaves, pos, blank()) {
                        Err(e) => Err(e),
                        Ok((rest, root)) => if is_empty_hash(root.data) {
                            Err(AccumulatorError::StructuralViolation)
                        } else {
                            rows_applied(rest, num_leaves, plans, row + 1, found.insert(0, root))
                        },
                    },
                },
            },
        }
    }
}

/// A node without data and without nieces.
pub fn blank_node() -> (node: PolNode)
    ensures
        node == blank(),
{
    PolNode { data: empty_hash(), l_niece: None, r_niece: None }
}

/// What a slot holds, an absent node taken as a blank one.
pub fn hold(slot: Option<Box<PolNode>>) -> (node: PolNode)
    ensures
        node == held(slot),
{
    match slot {
        Some(node) => *node,
        None => PolNode { data: empty_hash(), l_niece: None, r_niece: None },
    }
}

/// The slot that holds `node`: none where the node is blank.
pub fn settle(node: PolNode) -> (slot: Option<Box<PolNode>>)
    ensures
        slot == settled(node),
{
    if is_empty(&node.data) && node.dead_end() {
        None
    } else {
        Some(Box::new(node))
    }
}

/// Exchanges the subtree that hangs `branch` levels below `node`, at the
/// end of the way `bits`, for `scion`: see `grafted`.
pub fn graft(node: PolNode, branch: u8, bits: u64, scion: PolNode) -> (r: Option<
    (PolNode, PolNode),
>)
    requires
        branch <= 64,
    ensures
        r == grafted(node, branch as nat, bits, scion),
    decreases branch,
{
    if branch == 0 {
        return Some((scion, node));
    }
    let right = (bits >> (branch - 1)) & 1 == 1;
    let PolNode { data, l_niece, r_niece } = node;
    if branch == 1 {
        let (target_slot, sibling_slot) = if right {
            (r_niece, l_niece)
        } else {
            (l_niece, r_niece)
        };
        let target = hold(target_slot);
        let sibling = hold(sibling_slot);
        let there = settle(
            PolNode { data: scion.data, l_niece: target.l_niece, r_niece: target.r_niece },
        );
        let beside = settle(
            PolNode { data: sibling.data, l_niece: scion.l_niece, r_niece: scion.r_niece },
        );
        let prior = PolNode {
            data: target.data,
            l_niece: sibling.l_niece,
            r_niece: sibling.r_niece,
        };
        if right {
            Some((PolNode { data, l_niece: beside, r_niece: there }, prior))
        } else {
            Some((PolNode { data, l_niece: there, r_niece: beside }, prior))
        }
    } else {
        let (aunt_slot, other) = if right {
            (l_niece, r_niece)
        } else {
            (r_niece, l_niece)
        };
        match aunt_slot {
            None => None,
            Some(aunt) => match graft(*aunt, branch - 1, bits, scion) {
                None => None,
                Some((grown, prior)) => {
                    let grown = Some(Box::new(grown));
                    if right {
                        Some((PolNode { data, l_niece: grown, r_niece: other }, prior))
                    } else {
                        Some((PolNode { data, l_niece: other, r_niece: grown }, prior))
                    }
                },
            },
        }
    }
}

/// The node that hangs `branch` levels below `node` at the end of the way
/// `bits`, and its sibling: see `pair_at`.
pub fn find_pair<'a>(node: &'a PolNode, branch: u8, bits: u64) -> (r: Option<
    (&'a PolNode, &'a PolNode),
>)
    requires
        branch <= 64,
    ensures
        match r {
            Some((target, sibling)) => pair_at(*node, branch as nat, bits) == Some(
                (*target, *sibling),
            ),
            None => pair_at(*node, branch as nat, bits) is None,
        },
    decreases branch,
{
    if branch == 0 {
        return Some((node, node));
    }
    let right = (bits >> (branch - 1)) & 1 == 1;
    if branch == 1 {
        let (target, sibling) = if right {
            (&node.r_niece, &node.l_niece)
        } else {
            (&node.l_niece, &node.r_niece)
        };
        match (target, sibling) {
            (Some(target), Some(sibling)) => Some((&**target, &**sibling)),
            _ => None,
        }
    } else {
        let aunt = if right {
            &node.l_niece
        } else {
            &node.r_niece
        };
        match aunt {
            None => None,
            Some(aunt) => find_pair(&**aunt, branch - 1, bits),
        }
    }
}

/// Exchanges the subtree at `pos` of the forest for `scion` and returns
/// the subtree that was there. Where it fails the roots are spent.
pub(crate) fn graft_at(
    roots: &mut Vec<PolNode>,
    num_leaves: u64,
    pos: u64,
    scion: PolNode,
) -> (r: Result<PolNode, AccumulatorError>)
    ensures
        match r {
            Ok(prior) => forest_grafted(old(roots)@, num_leaves, pos, scion) == Ok::<
                (Seq<PolNode>, PolNode),
                AccumulatorError,
            >((final(roots)@, prior)),
            Err(e) => forest_grafted(old(roots)@, num_leaves, pos, scion) == Err::<
                (Seq<PolNode>, PolNode),
                AccumulatorError,
            >(e),
        },
{
    let (tree, branch, bits) = match detect_offset(pos, num_leaves) {
        Ok(offset) => offset,
        Err(e) => {
            return Err(e);
        },
    };
    if tree as usize >= roots.len() {
        return Err(AccumulatorError::StructuralViolation);
    }
    let root = roots.remove(tree as usize);
    match graft(root, branch, bits, scion) {
        None => Err(AccumulatorError::StructuralViolation),
        Some((grown, prior)) => {
            roots.insert(tree as usize, grown);
            proof {
                assert(roots@ =~= old(roots)@.update(tree as int, grown));
            }
            Ok(prior)
        },
    }
}

/// Lets the subtrees at the two ends of `arrow` change places. Where it
/// fails the roots are spent.
pub(crate) fn swap_at(roots: &mut Vec<PolNode>, num_leaves: u64, arrow: Arrow) -> (r: Result<
    (),
    AccumulatorError,
>)
    ensures
        match r {
            Ok(_) => forest_swapped(old(roots)@, num_leaves, arrow) == Ok::<
                Seq<PolNode>,
                AccumulatorError,
            >(final(roots)@),
            Err(e) => forest_swapped(old(roots)@, num_leaves, arrow) == Err::<
                Seq<PolNode>,
                AccumulatorError,
            >(e),
        },
{
    let moved = match graft_at(roots, num_leaves, arrow.from, blank_node()) {
        Ok(moved) => moved,
        Err(e) => {
            return Err(e);
        },
    };
    if is_empty(&moved.data) {
        return Err(AccumulatorError::StructuralViolation);
    }
    let dead = match graft_at(roots, num_leaves, arrow.to, moved) {
        Ok(dead) => dead,
        Err(e) => {
            return Err(e);
        },
    };
    match graft_at(roots, num_leaves, arrow.from, dead) {
        Ok(_) => Ok(()),
        Err(e) => Err(e),
    }
}

/// Gives the node at `pos` the hash of its two children. Where it fails
/// the roots are spent.
pub(crate) fn rehash_at(roots: &mut Vec<PolNode>, num_leaves: u64, pos: u64) -> (r: Result<
    (),
    AccumulatorError,
>)
    ensures
        match r {
            Ok(_) => forest_rehashed(old(roots)@, num_leaves, pos) == Ok::<
                Seq<PolNode>,
                AccumulatorError,
            >(final(roots)@),
            Err(e) => forest_rehashed(old(roots)@, num_leaves, pos) == Err::<
                Seq<PolNode>,
                AccumulatorError,
            >(e),
        },
{
    let subtree = match graft_at(roots, num_leaves, pos, blank_node()) {
        Ok(subtree) => subtree,
        Err(e) => {
            return Err(e);
        },
    };
    let hash = match subtree.aunt_op() {
        Ok(hash) => hash,
        Err(e) => {
            return Err(e);
        },
    };
    let fresh = PolNode { data: hash, l_niece: subtree.l_niece, r_niece: subtree.r_niece };
    match graft_at(roots, num_leaves, pos, fresh) {
        Ok(_) => Ok(()),
        Err(e) => Err(e),
    }
}

/// Gives each position of `dirty` its hash anew. Where it fails the roots
/// are spent.
pub(crate) fn rehash_all(roots: &mut Vec<PolNode>, num_leaves: u64, dirty: &Vec<u64>) -> (r: Result<
    (),
    AccumulatorError,
>)
    ensures
        match r {
            Ok(_) => rehashed_from(old(roots)@, num_leaves, dirty@, 0) == Ok::<
                Seq<PolNode>,
                AccumulatorError,
            >(final(roots)@),
            Err(e) => rehashed_from(old(roots)@, num_leaves, dirty@, 0) == Err::<
                Seq<PolNode>,
                AccumulatorError,
            >(e),
        },
{
    let mut i: usize = 0;
    while i < dirty.len()
        invariant
            i <= dirty@.len(),
            rehashed_from(old(roots)@, num_leaves, dirty@, 0) == rehashed_from(
                roots@,
                num_leaves,
                dirty@,
                i as nat,
            ),
        decreases dirty@.len() - i,
    {
        match rehash_at(roots, num_leaves, dirty[i]) {
            Ok(_) => {},
            Err(e) => {
                return Err(e);
            },
        }
        i += 1;
    }
    Ok(())
}

/// Makes the swaps one after the other. Where it fails the roots are spent.
pub(crate) fn swap_all(roots: &mut Vec<PolNode>, num_leaves: u64, swaps: &Vec<Arrow>) -> (r: Result<
    (),
    AccumulatorError,
>)
    ensures
        match r {
            Ok(_) => swapped_from(old(roots)@, num_leaves, swaps@, 0) == Ok::<
                Seq<PolNode>,
                AccumulatorError,
            >(final(roots)@),
            Err(e) => swapped_from(old(roots)@, num_leaves, swaps@, 0) == Err::<
                Seq<PolNode>,
                AccumulatorError,
            >(e),
        },
{
    let mut i: usize = 0;
    while i < swaps.len()
        invariant
            i <= swaps@.len(),
            swapped_from(old(roots)@, num_leaves, swaps@, 0) == swapped_from(
                roots@,
                num_leaves,
                swaps@,
                i as nat,
            ),
        decreases swaps@.len() - i,
    {
        match swap_at(roots, num_leaves, swaps[i]) {
            Ok(_) => {},
            Err(e) => {
                return Err(e);
            },
        }
        i += 1;
    }
    Ok(())
}

/// Carries out a schedule and returns the roots that it leaves, tallest
/// first. Where it fails the roots are spent.
pub(crate) fn apply_rows(
    roots: &mut Vec<PolNode>,
    num_leaves: u64,
    rows: &Vec<RowPlan>,
) -> (r: Result<Vec<PolNode>, AccumulatorError>)
    ensures
        match r {
            Ok(found) => rows_applied(
                old(roots)@,
                num_leaves,
                plan_views(rows@),
                0,
                Seq::empty(),
            ) == Ok::<Seq<PolNode>, AccumulatorError>(found@),
            Err(e) => rows_applied(old(roots)@, num_leaves, plan_views(rows@), 0, Seq::empty())
                == Err::<Seq<PolNode>, AccumulatorError>(e),
        },
{
    let mut found: Vec<PolNode> = Vec::new();
    let mut row: usize = 0;
    while row < rows.len()
        invariant
            row <= rows@.len(),
            rows_applied(old(roots)@, num_leaves, plan_views(rows@), 0, Seq::empty())
                == rows_applied(roots@, num_leaves, plan_views(rows@), row as nat, found@),
        decreases rows@.len() - row,
    {
        proof {
            assert(plan_views(rows@)[row as int] == rows@[row as int]@);
        }
        match rehash_all(roots, num_leaves, &rows[row].dirty) {
            Ok(_) => {},
            Err(e) => {
                return Err(e);
            },
        }
        match swap_all(roots, num_leaves, &rows[row].swaps) {
            Ok(_) => {},
            Err(e) => {
                return Err(e);
            },
        }
        match rows[row].root {
            None => {},
            Some(pos) => {
                match graft_at(roots, num_leaves, pos, blank_node()) {
                    Ok(root) => {
                        if is_empty(&root.data) {
                            return Err(AccumulatorError::StructuralViolation);
                        }
                        found.insert(0, root);
                    },
                    Err(e) => {
                        return Err(e);
                    },
                }
            },
        }
        row += 1;
    }
    Ok(found)
}

/// What a graft hands out is what hangs at its place: the hash of the
/// node there, with the nieces of the sibling of that node, which are its
/// children.
pub proof fn lemma_graft_hands_out(node: PolNode, branch: nat, bits: u64, scion: PolNode)
    requires
        branch >= 1,
        pair_at(node, branch, bits) is Some,
    ensures
        grafted(node, branch, bits, scion) is Some,
        grafted(node, branch, bits, scion)->Some_0.1 == (PolNode {
            data: pair_at(node, branch, bits)->Some_0.0.data,
            l_niece: pair_at(node, branch, bits)->Some_0.1.l_niece,
            r_niece: pair_at(node, branch, bits)->Some_0.1.r_niece,
        }),
    decreases branch,
{
    if branch >= 2 {
        let aunt = if turns_right(bits, branch) {
            node.l_niece
        } else {
            node.r_niece
        };
        lemma_graft_hands_out(*aunt->Some_0, (branch - 1) as nat, bits, scion);
    }
}

/// What is grafted stays until the next graft at its place: a second
/// exchange at the end of the same way hands the first scion back.
pub proof fn lemma_graft_reads_back(
    node: PolNode,
    branch: nat,
    bits: u64,
    scion: PolNode,
    next: PolNode,
)
    requires
        grafted(node, branch, bits, scion) is Some,
    ensures
        grafted(grafted(node, branch, bits, scion)->Some_0.0, branch, bits, next) is Some,
        grafted(grafted(node, branch, bits, scion)->Some_0.0, branch, bits, next)->Some_0.1
            == scion,
    decreases branch,
{
    if branch >= 2 {
        let aunt = if turns_right(bits, branch) {
            node.l_niece
        } else {
            node.r_niece
        };
        lemma_graft_reads_back(*aunt->Some_0, (branch - 1) as nat, bits, scion, next);
    } else if branch == 1 {
        let right = turns_right(bits, branch);
        let sibling = held(
            if right {
                node.l_niece
            } else {
                node.r_niece
            },
        );
        if is_empty_hash(scion.data) {
            lemma_empty_hash(scion.data);
        }
        if is_empty_hash(sibling.data) {
            lemma_empty_hash(sibling.data);
        }
    }
}

/// Every position that the plans from row `row` on name is a position of
/// the forest.
pub open spec fn plans_in_forest(plans: Seq<RowPlanView>, num_leaves: u64, row: nat) -> bool {
    forall|r: int|
        row <= r < plans.len() ==> {
            &&& forall|i: int|
                0 <= i < (#[trigger] plans[r]).dirty.len() ==> in_forest(
                    plans[r].dirty[i],
                    num_leaves,
                )
            &&& forall|i: int|
                0 <= i < plans[r].swaps.len() ==> in_forest(plans[r].swaps[i].from, num_leaves)
                    && in_forest(plans[r].swaps[i].to, num_leaves)
            &&& plans[r].root is Some ==> in_forest(plans[r].root->Some_0, num_leaves)
        }
}

proof fn lemma_rehashed_kind(roots: Seq<PolNode>, num_leaves: u64, dirty: Seq<u64>, i: nat)
    requires
        forall|k: int| 0 <= k < dirty.len() ==> in_forest(dirty[k], num_leaves),
    ensures
        rehashed_from(roots, num_leaves, dirty, i) != Err::<Seq<PolNode>, AccumulatorError>(
            AccumulatorError::InvalidPosition,
        ),
    decreases dirty.len() - i,
{
    if i < dirty.len() {
        assert(in_forest(dirty[i as int], num_leaves));
        match forest_rehashed(roots, num_leaves, dirty[i as int]) {
            Ok(next) => {
                lemma_rehashed_kind(next, num_leaves, dirty, i + 1);
            },
            Err(_) => {},
        }
    }
}

proof fn lemma_swapped_kind(roots: Seq<PolNode>, num_leaves: u64, swaps: Seq<Arrow>, i: nat)
    requires
        forall|k: int|
            0 <= k < swaps.len() ==> in_forest(swaps[k].from, num_leaves) && in_forest(
                swaps[k].to,
                num_leaves,
            ),
    ensures
        swapped_from(roots, num_leaves, swaps, i) != Err::<Seq<PolNode>, AccumulatorError>(
            AccumulatorError::InvalidPosition,
        ),
    decreases swaps.len() - i,
{
    if i < swaps.len() {
        assert(in_forest(swaps[i as int].from, num_leaves));
        assert(in_forest(swaps[i as int].to, num_leaves));
        match forest_swapped(roots, num_leaves, swaps[i as int]) {
            Ok(next) => {
                lemma_swapped_kind(next, num_leaves, swaps, i + 1);
            },
            Err(_) => {},
        }
    }
}

/// A schedule that names positions of the forest only is not refused for
/// an invalid position.
pub proof fn lemma_rows_applied_kind(
    roots: Seq<PolNode>,
    num_leaves: u64,
    plans: Seq<RowPlanView>,
    row: nat,
    found: Seq<PolNode>,
)
    requires
        plans_in_forest(plans, num_leaves, row),
    ensures
        rows_applied(roots, num_leaves, plans, row, found) != Err::<
            Seq<PolNode>,
            AccumulatorError,
        >(AccumulatorError::InvalidPosition),
    decreases plans.len() - row,
{
    if row < plans.len() {
        let plan = plans[row as int];
        lemma_rehashed_kind(roots, num_leaves, plan.dirty, 0);
        match rehashed_from(roots, num_leaves, plan.dirty, 0) {
            Err(_) => {},
            Ok(fresh) => {
                lemma_swapped_kind(fresh, num_leaves, plan.swaps, 0);
                match swapped_from(fresh, num_leaves, plan.swaps, 0) {
                    Err(_) => {},
                    Ok(packed) => match plan.root {
                        None => {
                            lemma_rows_applied_kind(packed, num_leaves, plans, row + 1, found);
                        },
                        Some(pos) => match forest_grafted(packed, num_leaves, pos, blank()) {
                            Err(_) => {},
                            Ok((rest, root)) => if !is_empty_hash(root.data) {
                                lemma_rows_applied_kind(
                                    rest,
                                    num_leaves,
                                    plans,
                                    row + 1,
                                    found.insert(0, root),
                                );
                            },
                        },
                    },
                }
            },
        }
    }
}

pub(crate) proof fn lemma_rows_applied_idle(
    roots: Seq<PolNode>,
    num_leaves: u64,
    plans: Seq<RowPlanView>,
    row: nat,
    found: Seq<PolNode>,
)
    requires
        forall|j: int| row <= j < plans.len() ==> plans[j] == idle_plan(),
    ensures
        rows_applied(roots, num_leaves, plans, row, found) == Ok::<Seq<PolNode>, AccumulatorError>(
            found,
        ),
    decreases plans.len() - row,
{
    if row < plans.len() {
        assert(plans[row as int] == idle_plan());
        assert(rehashed_from(roots, num_leaves, plans[row as int].dirty, 0) == Ok::<
            Seq<PolNode>,
            AccumulatorError,
        >(roots));
        assert(swapped_from(roots, num_leaves, plans[row as int].swaps, 0) == Ok::<
            Seq<PolNode>,
            AccumulatorError,
        >(roots));
        lemma_rows_applied_idle(roots, num_leaves, plans, row + 1, found);
    }
}

/// The roots that a schedule takes out of the forest carry a hash each.
pub proof fn lemma_rows_applied_rooted(
    roots: Seq<PolNode>,
    num_leaves: u64,
    plans: Seq<RowPlanView>,
    row: nat,
    found: Seq<PolNode>,
)
    requires
        rows_applied(roots, num_leaves, plans, row, found) is Ok,
        forall|i: int| 0 <= i < found.len() ==> !is_empty_hash(#[trigger] found[i].data),
    ensures
        forall|i: int|
            0 <= i < rows_applied(roots, num_leaves, plans, row, found)->Ok_0.len()
                ==> !is_empty_hash(
                #[trigger] rows_applied(roots, num_leaves, plans, row, found)->Ok_0[i].data,
            ),
    decreases plans.len() - row,
{
    if row < plans.len() {
        let fresh = rehashed_from(roots, num_leaves, plans[row as int].dirty, 0)->Ok_0;
        let packed = swapped_from(fresh, num_leaves, plans[row as int].swaps, 0)->Ok_0;
        match plans[row as int].root {
            None => {
                lemma_rows_applied_rooted(packed, num_leaves, plans, row + 1, found);
            },
            Some(pos) => {
                let taken = forest_grafted(packed, num_leaves, pos, blank())->Ok_0;
                let more = found.insert(0, taken.1);
                assert forall|i: int| 0 <= i < more.len() implies !is_empty_hash(
                    #[trigger] more[i].data,
                ) by {
                    if i > 0 {
                        assert(more[i] == found[i - 1]);
                    }
                }
                lemma_rows_applied_rooted(taken.0, num_leaves, plans, row + 1, more);
            },
        }
    }
}

/// Carrying out a schedule takes one subtree out of the forest for each
/// root that the plans name.
pub proof fn lemma_rows_applied_count(
    roots: Seq<PolNode>,
    num_leaves: u64,
    plans: Seq<RowPlanView>,
    row: nat,
    found: Seq<PolNode>,
)
    requires
        rows_applied(roots, num_leaves, plans, row, found) is Ok,
    ensures
        rows_applied(roots, num_leaves, plans, row, found)->Ok_0.len() == found.len()
            + roots_named(plans, row),
    decreases plans.len() - row,
{
    if row < plans.len() {
        let fresh = rehashed_from(roots, num_leaves, plans[row as int].dirty, 0)->Ok_0;
        let packed = swapped_from(fresh, num_leaves, plans[row as int].swaps, 0)->Ok_0;
        match plans[row as int].root {
            None => {
                lemma_rows_applied_count(packed, num_leaves, plans, row + 1, found);
            },
            Some(pos) => {
                let taken = forest_grafted(packed, num_leaves, pos, blank())->Ok_0;
                lemma_rows_applied_count(
                    taken.0,
                    num_leaves,
                    plans,
                    row + 1,
                    found.insert(0, taken.1),
                );
            },
        }
    }
}

} // verus!
