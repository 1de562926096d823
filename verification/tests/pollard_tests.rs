use bitcoin::hashes::{sha256, HashEngine};
use rustreexo::accumulator::index::IndexEntry;
use rustreexo::accumulator::pollard::{pol_swap, PolNode, Pollard};
use rustreexo::accumulator::types::{
    empty_hash, is_empty, parent_hash, AccumulatorError, Leaf, NodeHash,
};

fn finish(engine: sha256::HashEngine) -> NodeHash {
    let hash = <sha256::Hash as bitcoin::hashes::Hash>::from_engine(engine);
    <sha256::Hash as bitcoin::hashes::Hash>::to_byte_array(hash)
}

fn hash_of(bytes: &[u8]) -> NodeHash {
    let mut engine = <sha256::Hash as bitcoin::hashes::Hash>::engine();
    engine.input(bytes);
    finish(engine)
}

fn join(left: &NodeHash, right: &NodeHash) -> NodeHash {
    let mut engine = <sha256::Hash as bitcoin::hashes::Hash>::engine();
    engine.input(left);
    engine.input(right);
    finish(engine)
}

fn leaf_hash(i: u64) -> NodeHash {
    hash_of(&[(i & 255) as u8, (i >> 8) as u8, 7])
}

fn merkle_root(leaves: &[NodeHash]) -> NodeHash {
    if leaves.len() == 1 {
        leaves[0]
    } else {
        let half = leaves.len() / 2;
        join(&merkle_root(&leaves[..half]), &merkle_root(&leaves[half..]))
    }
}

fn node(data: NodeHash, l: Option<Box<PolNode>>, r: Option<Box<PolNode>>) -> PolNode {
    PolNode { data, l_niece: l, r_niece: r }
}

// A whole tree over `leaves`, written as a root: the hash with its own
// children as nieces, each child holding the children of the other.
fn full_tree(leaves: &[NodeHash]) -> PolNode {
    if leaves.len() == 1 {
        return node(leaves[0], None, None);
    }
    let half = leaves.len() / 2;
    let left = full_tree(&leaves[..half]);
    let right = full_tree(&leaves[half..]);
    let data = join(&left.data, &right.data);
    let l = node(left.data, right.l_niece, right.r_niece);
    let r = node(right.data, left.l_niece, left.r_niece);
    node(data, Some(Box::new(l)), Some(Box::new(r)))
}

fn full_forest(leaves: &[NodeHash]) -> Pollard {
    let n = leaves.len() as u64;
    let mut roots = Vec::new();
    let mut start = 0usize;
    for bit in (0..64).rev() {
        if (n >> bit) & 1 == 1 {
            let size = 1usize << bit;
            roots.push(full_tree(&leaves[start..start + size]));
            start += size;
        }
    }
    let position_index = leaves
        .iter()
        .enumerate()
        .map(|(i, hash)| IndexEntry { hash: *hash, position: i as u64 })
        .collect();
    Pollard { roots: Some(roots), num_leaves: n, position_index }
}

// The leaves below a subtree written as a root, left to right, as far as
// the tree holds them; checks each hash on the way against its children.
fn leaves_below(data: &NodeHash, l: &Option<Box<PolNode>>, r: &Option<Box<PolNode>>) -> Vec<NodeHash> {
    match (l, r) {
        (Some(l), Some(r)) => {
            assert_eq!(*data, join(&l.data, &r.data));
            let mut out = leaves_below(&l.data, &r.l_niece, &r.r_niece);
            out.extend(leaves_below(&r.data, &l.l_niece, &l.r_niece));
            out
        }
        (None, None) => vec![*data],
        _ => panic!("half a pair"),
    }
}

fn roots_of(pollard: &Pollard) -> Vec<PolNode> {
    pollard.roots.clone().unwrap_or_default()
}

fn leaves_of_forest(pollard: &Pollard) -> Vec<Vec<NodeHash>> {
    roots_of(pollard)
        .iter()
        .map(|root| leaves_below(&root.data, &root.l_niece, &root.r_niece))
        .collect()
}

// Each leaf that is left stands where the index says, and no deleted
// leaf is in the index.
fn check_index(pollard: &Pollard, leaves: &[NodeHash], dels: &[u64]) {
    let now = leaves_of_forest(pollard).concat();
    assert_eq!(pollard.position_index.len(), now.len());
    for (i, hash) in leaves.iter().enumerate() {
        let found = pollard.position_of(hash);
        if dels.contains(&(i as u64)) {
            assert_eq!(found, None);
        } else {
            assert_eq!(now[found.unwrap() as usize], *hash);
        }
    }
}

fn check_shape(pollard: &Pollard) {
    let trees = leaves_of_forest(pollard);
    let mut sizes = Vec::new();
    for bit in (0..64).rev() {
        if (pollard.num_leaves >> bit) & 1 == 1 {
            sizes.push(1usize << bit);
        }
    }
    assert_eq!(trees.iter().map(|t| t.len()).collect::<Vec<_>>(), sizes);
    for (tree, root) in trees.iter().zip(roots_of(pollard).iter()) {
        assert_eq!(merkle_root(tree), root.data);
    }
}

#[test]
fn test_pol_add() {
    let mut engine = <sha256::Hash as bitcoin::hashes::Hash>::engine();
    let num: &[u8; 1] = &[0 as u8];
    engine.input(num);
    let h1 = finish(engine);
    let leaf1 = Leaf { hash: h1, remember: false };

    let mut engine1 = <sha256::Hash as bitcoin::hashes::Hash>::engine();
    let num2: &[u8; 1] = &[1 as u8];
    engine1.input(num2);
    let h2 = finish(engine1);
    let leaf2 = Leaf { hash: h2, remember: false };

    let mut engine3 = <sha256::Hash as bitcoin::hashes::Hash>::engine();
    let num3: &[u8; 1] = &[2 as u8];
    engine3.input(num3);
    let h3 = finish(engine3);
    let leaf3 = Leaf { hash: h3, remember: false };

    let mut engine4 = <sha256::Hash as bitcoin::hashes::Hash>::engine();
    let num4: &[u8; 1] = &[3 as u8];
    engine4.input(num4);
    let h4 = finish(engine4);
    let leaf4 = Leaf { hash: h4, remember: false };

    let mut engine5 = <sha256::Hash as bitcoin::hashes::Hash>::engine();
    let num5: &[u8; 1] = &[4 as u8];
    engine5.input(num5);
    let h5 = finish(engine5);
    let leaf5 = Leaf { hash: h5, remember: false };

    let mut pollard = Pollard::new();

    pollard.modify(vec![leaf1], vec![]).unwrap();

    assert_eq!(pollard.num_leaves, 1);
    assert_eq!(pollard.roots.clone().unwrap()[0].data, h1);

    pollard.modify(vec![leaf2], vec![]).unwrap();
    assert_ne!(pollard.roots.clone().unwrap()[0].data, h1);
    assert_ne!(pollard.roots.clone().unwrap()[0].data, h2);

    pollard.modify(vec![leaf3], vec![]).unwrap();

    println!("root[0]: {:?}", pollard.roots.clone().unwrap()[0].data);
    println!("root[1]: {:?}", pollard.roots.clone().unwrap()[1].data);
    println!("h2: {:?}", h3);
    assert_eq!(pollard.roots.clone().unwrap()[1].data, h3);

    println!("pollard leaves: {:?}", &pollard.num_leaves);
    println!("pollard root len: {:?}", pollard.roots.clone().unwrap().len());

    pollard.modify(vec![leaf4], vec![]).unwrap();

    println!("pollard leaves: {:?}", &pollard.num_leaves);
    println!("pollard root len: {:?}", pollard.roots.clone().unwrap().len());
    println!("root[0]: {:?}", pollard.roots.clone().unwrap()[0].data);

    pollard.modify(vec![leaf5], vec![]).unwrap();
    println!("pollard leaves: {:?}", &pollard.num_leaves);
    println!("pollard root len: {:?}", pollard.roots.clone().unwrap().len());
    println!("root[0]: {:?}", pollard.roots.clone().unwrap()[0].data);
    assert_eq!(pollard.roots.clone().unwrap()[1].data, h5);
}

#[test]
fn test_pol_swap() {
    let mut engine = <sha256::Hash as bitcoin::hashes::Hash>::engine();
    let num: &[u8; 1] = &[1 as u8];
    engine.input(num);
    let h1 = finish(engine);
    let h1_copy = h1.clone();

    let mut engine1 = <sha256::Hash as bitcoin::hashes::Hash>::engine();
    let num2: &[u8; 1] = &[2 as u8];
    engine1.input(num2);
    let h2 = finish(engine1);
    let h2_copy = h2.clone();

    let mut engine2 = <sha256::Hash as bitcoin::hashes::Hash>::engine();
    let num3: &[u8; 1] = &[3 as u8];
    engine2.input(num3);
    let h3 = finish(engine2);
    let h3_copy = h3.clone();

    let mut engine3 = <sha256::Hash as bitcoin::hashes::Hash>::engine();
    let num4: &[u8; 1] = &[3 as u8];
    engine3.input(num4);
    let h4 = finish(engine3);
    let h4_copy = h4.clone();

    let mut a = node(h1, None, None);
    assert_eq!(a.data, h1_copy);
    let mut b = node(h2, None, None);
    assert_eq!(b.data, h2_copy);
    let mut asib = node(h3, Some(Box::new(node(h1, None, None))), None);
    let mut bsib = node(h4, None, Some(Box::new(node(h2, None, None))));

    pol_swap(&mut a, &mut asib, &mut b, &mut bsib);

    assert_eq!(a.data, h2_copy);
    assert_eq!(b.data, h1_copy);
    assert_eq!(asib.data, h3_copy);
    assert_eq!(bsib.data, h4_copy);
    assert!(asib.l_niece.is_none());
    assert_eq!(asib.r_niece.as_ref().unwrap().data, h2_copy);
    assert_eq!(bsib.l_niece.as_ref().unwrap().data, h1_copy);
    assert!(bsib.r_niece.is_none());
    assert!(a.l_niece.is_none() && a.r_niece.is_none());
    assert!(b.l_niece.is_none() && b.r_niece.is_none());
}

#[test]
fn parent_hash_is_sha256_of_both() {
    let left = hash_of(&[0]);
    let right = hash_of(&[1]);
    let parent = parent_hash(left, right).unwrap();
    assert_eq!(parent, join(&left, &right));
    assert_ne!(parent, left);
    assert_ne!(parent, right);
    assert_ne!(parent, parent_hash(right, left).unwrap());
    // SHA-256 of 64 bytes of value 1
    let ones = [1u8; 32];
    let expected: [u8; 32] = [
        0x7c, 0x89, 0x75, 0xe1, 0xe6, 0x0a, 0x5c, 0x83, 0x37, 0xf2, 0x8e, 0xdf, 0x8c, 0x33, 0xc3, 0xb1, 0x80, 0x36, 0x0b, 0x72, 0x79, 0x64, 0x4a, 0x9b, 0xc1, 0xaf, 0x3c, 0x51, 0xe6, 0x22, 0x0b, 0xf5,
    ];
    assert_eq!(parent_hash(ones, ones), Ok(expected));
    assert_eq!(parent_hash(ones, ones).unwrap(), join(&ones, &ones));
}

#[test]
fn parent_hash_refuses_an_empty_operand() {
    let full = hash_of(&[0]);
    let empty = [0u8; 32];
    assert_eq!(parent_hash(empty, full), Err(AccumulatorError::EmptyOperand));
    assert_eq!(parent_hash(full, empty), Err(AccumulatorError::EmptyOperand));
    assert_eq!(parent_hash(empty, empty), Err(AccumulatorError::EmptyOperand));
    let mut almost = [0u8; 32];
    almost[31] = 1;
    assert!(parent_hash(almost, full).is_ok());
    assert!(is_empty(&empty));
    assert!(!is_empty(&almost));
    assert_eq!(empty_hash(), empty);
}

#[test]
fn a_new_forest_is_empty() {
    let pollard = Pollard::new();
    assert_eq!(pollard.num_leaves, 0);
    assert!(pollard.roots.is_none());
    assert!(pollard.position_index.is_empty());
    assert_eq!(pollard.position_of(&hash_of(&[0])), None);
}

#[test]
fn the_index_names_the_place_of_each_leaf() {
    let mut pollard = Pollard::new();
    for i in 0..20u64 {
        pollard.add_single(leaf_hash(i), false).unwrap();
    }
    for i in 0..20u64 {
        assert_eq!(pollard.position_of(&leaf_hash(i)), Some(i));
    }
    assert_eq!(pollard.position_of(&leaf_hash(20)), None);
    // of two leaves with one hash the later one is found
    pollard.add_single(leaf_hash(3), false).unwrap();
    assert_eq!(pollard.position_of(&leaf_hash(3)), Some(20));
}

#[test]
fn a_failed_batch_leaves_the_index_as_it_was() {
    let mut pollard = Pollard::new();
    pollard.add_single(leaf_hash(0), false).unwrap();
    let r = pollard.add(vec![
        Leaf { hash: leaf_hash(1), remember: false },
        Leaf { hash: leaf_hash(2), remember: false },
        Leaf { hash: [0u8; 32], remember: false },
    ]);
    assert_eq!(r, Err(AccumulatorError::EmptyOperand));
    assert_eq!(pollard.position_index.len(), 1);
    assert_eq!(pollard.position_of(&leaf_hash(0)), Some(0));
    assert_eq!(pollard.position_of(&leaf_hash(1)), None);
}

#[test]
fn one_leaf_is_its_own_root() {
    let h0 = hash_of(&[0]);
    let mut pollard = Pollard::new();
    assert_eq!(pollard.add(vec![Leaf { hash: h0, remember: false }]), Ok(vec![]));
    assert_eq!(pollard.num_leaves, 1);
    let roots = roots_of(&pollard);
    assert_eq!(roots.len(), 1);
    assert_eq!(roots[0].data, h0);
    assert!(roots[0].dead_end());
}

#[test]
fn two_leaves_join_in_one_root() {
    let h0 = hash_of(&[0]);
    let h1 = hash_of(&[1]);
    let mut pollard = Pollard::new();
    pollard.add(vec![Leaf { hash: h0, remember: false }, Leaf { hash: h1, remember: false }]).unwrap();
    assert_eq!(pollard.num_leaves, 2);
    let roots = roots_of(&pollard);
    assert_eq!(roots.len(), 1);
    assert_eq!(roots[0].data, join(&h0, &h1));
    assert_ne!(roots[0].data, h0);
    assert_ne!(roots[0].data, h1);
}

#[test]
fn three_leaves_have_two_roots() {
    let h: Vec<NodeHash> = (0..3u8).map(|i| hash_of(&[i])).collect();
    let mut pollard = Pollard::new();
    for hash in h.iter() {
        assert_eq!(pollard.add_single(*hash, false), Ok(pollard.num_leaves - 1));
    }
    let roots = roots_of(&pollard);
    assert_eq!(roots.len(), 2);
    assert_eq!(roots[0].data, join(&h[0], &h[1]));
    assert_eq!(roots[1].data, h[2]);
}

#[test]
fn five_leaves_have_a_tree_of_four_and_one_leaf() {
    let h: Vec<NodeHash> = (0..5u8).map(|i| hash_of(&[i])).collect();
    let mut pollard = Pollard::new();
    pollard.modify(h.iter().map(|hash| Leaf { hash: *hash, remember: false }).collect(), vec![]).unwrap();
    assert_eq!(pollard.num_leaves, 5);
    let roots = roots_of(&pollard);
    assert_eq!(roots.len(), 2);
    assert_eq!(roots[0].data, merkle_root(&h[..4]));
    assert_eq!(roots[0].data, join(&join(&h[0], &h[1]), &join(&h[2], &h[3])));
    assert_eq!(roots[1].data, h[4]);
}

#[test]
fn roots_follow_the_set_bits_of_the_leaf_count() {
    let mut pollard = Pollard::new();
    let mut all = Vec::new();
    for i in 0..300u64 {
        let hash = leaf_hash(i);
        all.push(hash);
        assert_eq!(pollard.add_single(hash, i % 3 == 0), Ok(i));
        assert_eq!(pollard.num_leaves, i + 1);
        let roots = roots_of(&pollard);
        assert_eq!(roots.len() as u32, (i + 1).count_ones());
        let mut start = 0usize;
        let mut index = 0usize;
        for bit in (0..64).rev() {
            if ((i + 1) >> bit) & 1 == 1 {
                let size = 1usize << bit;
                assert_eq!(roots[index].data, merkle_root(&all[start..start + size]));
                start += size;
                index += 1;
            }
        }
    }
}

#[test]
fn add_returns_the_leaves_to_remember() {
    let h: Vec<NodeHash> = (0..4u8).map(|i| hash_of(&[i])).collect();
    let mut pollard = Pollard::new();
    let kept = pollard
        .add(vec![
            Leaf { hash: h[0], remember: true },
            Leaf { hash: h[1], remember: false },
            Leaf { hash: h[2], remember: true },
            Leaf { hash: h[3], remember: true },
        ])
        .unwrap();
    assert_eq!(kept, vec![h[0], h[2], h[3]]);
}

#[test]
fn add_keeps_the_nodes_that_join() {
    let h: Vec<NodeHash> = (0..4u8).map(|i| hash_of(&[i])).collect();
    let mut pollard = Pollard::new();
    pollard.add(h.iter().map(|hash| Leaf { hash: *hash, remember: false }).collect()).unwrap();
    let roots = roots_of(&pollard);
    assert_eq!(roots.len(), 1);
    assert!(roots[0].auntable());
    assert!(!roots[0].dead_end());
    assert_eq!(roots[0].aunt_op(), Ok(merkle_root(&h)));
    // every leaf is there, and every hash is that of its children
    assert_eq!(leaves_of_forest(&pollard), vec![h.clone()]);
}

#[test]
fn add_builds_whole_trees() {
    for n in 1..=17u64 {
        let h: Vec<NodeHash> = (0..n).map(leaf_hash).collect();
        let mut pollard = Pollard::new();
        for hash in h.iter() {
            pollard.add_single(*hash, false).unwrap();
        }
        let whole = full_forest(&h);
        assert_eq!(leaves_of_forest(&pollard), leaves_of_forest(&whole));
        assert_eq!(leaves_of_forest(&pollard).concat(), h);
        for pos in 0..n {
            let (found, sibling, _) = pollard.grab_pos(pos).unwrap();
            let (expected, beside, _) = whole.grab_pos(pos).unwrap();
            assert_eq!(found.data, h[pos as usize]);
            assert_eq!(found.data, expected.data);
            assert_eq!(sibling.data, beside.data);
        }
    }
}

#[test]
fn add_refuses_a_leaf_without_a_hash() {
    let mut pollard = Pollard::new();
    assert_eq!(pollard.add_single([0u8; 32], false), Err(AccumulatorError::EmptyOperand));
    assert_eq!(pollard.num_leaves, 0);
    assert_eq!(roots_of(&pollard).len(), 0);
    assert_eq!(pollard.position_index.len(), 0);
    assert_eq!(
        pollard.add(vec![Leaf { hash: [0u8; 32], remember: true }]),
        Err(AccumulatorError::EmptyOperand)
    );
    assert_eq!(pollard.num_leaves, 0);
    let h: Vec<NodeHash> = (0..2u64).map(leaf_hash).collect();
    pollard.add(h.iter().map(|hash| Leaf { hash: *hash, remember: false }).collect()).unwrap();
    assert_eq!(pollard.add_single([0u8; 32], false), Err(AccumulatorError::EmptyOperand));
    assert_eq!(pollard.num_leaves, 2);
    assert_eq!(roots_of(&pollard)[0].data, join(&h[0], &h[1]));
}

#[test]
fn add_keeps_what_hangs_below_a_root() {
    let h: Vec<NodeHash> = (0..4u8).map(|i| hash_of(&[i])).collect();
    let mut pollard = full_forest(&h[..2]);
    pollard.add(vec![Leaf { hash: h[2], remember: false }, Leaf { hash: h[3], remember: false }]).unwrap();
    let roots = roots_of(&pollard);
    assert_eq!(roots.len(), 1);
    assert_eq!(roots[0].data, merkle_root(&h));
    // the two children have exchanged what hangs below them
    let left = roots[0].l_niece.as_ref().unwrap();
    assert_eq!(left.data, join(&h[0], &h[1]));
    assert_eq!(left.l_niece.as_ref().unwrap().data, h[2]);
    assert_eq!(left.r_niece.as_ref().unwrap().data, h[3]);
    assert_eq!(left.aunt_op(), Ok(join(&h[2], &h[3])));
    let right = roots[0].r_niece.as_ref().unwrap();
    assert_eq!(right.data, join(&h[2], &h[3]));
    assert_eq!(right.l_niece.as_ref().unwrap().data, h[0]);
    assert_eq!(right.r_niece.as_ref().unwrap().data, h[1]);
    assert_eq!(right.aunt_op(), Ok(join(&h[0], &h[1])));
}

#[test]
fn add_refuses_an_empty_hash_that_has_to_be_joined() {
    let h0 = hash_of(&[0]);
    let mut pollard = Pollard::new();
    pollard.add(vec![Leaf { hash: h0, remember: false }]).unwrap();
    let before = roots_of(&pollard);
    assert_eq!(
        pollard.add(vec![Leaf { hash: [0u8; 32], remember: false }]),
        Err(AccumulatorError::EmptyOperand)
    );
    assert_eq!(pollard.num_leaves, 1);
    assert_eq!(roots_of(&pollard).len(), before.len());
    assert_eq!(roots_of(&pollard)[0].data, h0);
    assert_eq!(pollard.add_single([0u8; 32], false), Err(AccumulatorError::EmptyOperand));
    assert_eq!(pollard.num_leaves, 1);
}

#[test]
fn a_failed_batch_leaves_nothing_behind() {
    let h: Vec<NodeHash> = (0..3u8).map(|i| hash_of(&[i])).collect();
    let mut pollard = Pollard::new();
    pollard.add(vec![Leaf { hash: h[0], remember: false }]).unwrap();
    let r = pollard.add(vec![
        Leaf { hash: h[1], remember: false },
        Leaf { hash: h[2], remember: false },
        Leaf { hash: [0u8; 32], remember: false },
    ]);
    assert_eq!(r, Err(AccumulatorError::EmptyOperand));
    assert_eq!(pollard.num_leaves, 1);
    assert_eq!(roots_of(&pollard).len(), 1);
    assert_eq!(roots_of(&pollard)[0].data, h[0]);
}

#[test]
fn prune_cuts_dead_ends_off() {
    let h: Vec<NodeHash> = (0..3u8).map(|i| hash_of(&[i])).collect();
    let inner = node(h[1], Some(Box::new(node(h[2], None, None))), None);
    let mut top = node(h[0], Some(Box::new(node(h[1], None, None))), Some(Box::new(inner)));
    top.prune();
    assert!(top.l_niece.is_none());
    assert!(top.r_niece.is_some());
    assert!(!top.dead_end());
    assert!(!top.auntable());
    top.chop();
    assert!(top.dead_end());
    assert_eq!(top.data, h[0]);
}

#[test]
fn aunt_op_hashes_the_nieces() {
    let h: Vec<NodeHash> = (0..3u8).map(|i| hash_of(&[i])).collect();
    let top = node(h[0], Some(Box::new(node(h[1], None, None))), Some(Box::new(node(h[2], None, None))));
    assert!(top.auntable());
    assert_eq!(top.aunt_op(), Ok(join(&h[1], &h[2])));
    let half = node(h[0], Some(Box::new(node(h[1], None, None))), None);
    assert_eq!(half.aunt_op(), Err(AccumulatorError::StructuralViolation));
    let hollow = node(h[0], Some(Box::new(node([0u8; 32], None, None))), Some(Box::new(node(h[2], None, None))));
    assert_eq!(hollow.aunt_op(), Err(AccumulatorError::EmptyOperand));
}

#[test]
fn duplicate_copies_all_that_hangs_below() {
    let h: Vec<NodeHash> = (0..8u64).map(leaf_hash).collect();
    let tree = full_tree(&h);
    let copy = tree.duplicate();
    assert_eq!(leaves_below(&copy.data, &copy.l_niece, &copy.r_niece), h);
    assert_eq!(copy.data, tree.data);
}

#[test]
fn the_helper_builds_what_the_tests_expect() {
    let h: Vec<NodeHash> = (0..13u64).map(leaf_hash).collect();
    let forest = full_forest(&h);
    check_shape(&forest);
    let trees = leaves_of_forest(&forest);
    assert_eq!(trees.concat(), h);
}

#[test]
fn grab_pos_finds_nodes_and_siblings() {
    let h: Vec<NodeHash> = (0..7u64).map(leaf_hash).collect();
    let forest = full_forest(&h);
    for pos in 0..6u64 {
        let (found, sibling, hashable) = forest.grab_pos(pos).unwrap();
        assert_eq!(found.data, h[pos as usize]);
        assert_eq!(sibling.data, h[(pos ^ 1) as usize]);
        assert_eq!(hashable.position, pos);
        assert_eq!(hashable.sib.unwrap().data, found.data);
        assert_eq!(hashable.dest.unwrap().data, sibling.data);
    }
    // the last leaf is a root and stands for its own sibling
    let (found, sibling, _) = forest.grab_pos(6).unwrap();
    assert_eq!(found.data, h[6]);
    assert_eq!(sibling.data, h[6]);
    let (found, sibling, _) = forest.grab_pos(8).unwrap();
    assert_eq!(found.data, join(&h[0], &h[1]));
    assert_eq!(sibling.data, join(&h[2], &h[3]));
    // a node holds the children of its sibling
    assert_eq!(found.aunt_op(), Ok(sibling.data));
    assert_eq!(sibling.aunt_op(), Ok(found.data));
    let (found, _, _) = forest.grab_pos(12).unwrap();
    assert_eq!(found.data, merkle_root(&h[..4]));
    let (found, _, _) = forest.grab_pos(10).unwrap();
    assert_eq!(found.data, join(&h[4], &h[5]));
    assert!(matches!(forest.grab_pos(7), Err(AccumulatorError::InvalidPosition)));
    assert!(matches!(forest.grab_pos(11), Err(AccumulatorError::InvalidPosition)));
    assert!(matches!(forest.grab_pos(14), Err(AccumulatorError::InvalidPosition)));
}

#[test]
fn grab_pos_misses_what_was_pruned() {
    let mut pollard = Pollard::new();
    for i in 0..4u64 {
        pollard.add_single(leaf_hash(i), false).unwrap();
    }
    assert!(pollard.grab_pos(0).is_ok());
    assert!(pollard.grab_pos(4).is_ok());
    let mut roots = roots_of(&pollard);
    roots[0].chop();
    pollard.roots = Some(roots);
    assert!(matches!(pollard.grab_pos(0), Err(AccumulatorError::StructuralViolation)));
    assert!(matches!(pollard.grab_pos(4), Err(AccumulatorError::StructuralViolation)));
    assert!(pollard.grab_pos(6).is_ok());
    assert!(matches!(pollard.grab_pos(7), Err(AccumulatorError::InvalidPosition)));
}

#[test]
fn remove_of_nothing_changes_nothing() {
    let h: Vec<NodeHash> = (0..5u64).map(leaf_hash).collect();
    let mut forest = full_forest(&h);
    assert_eq!(forest.remove(vec![]), Ok(vec![]));
    assert_eq!(forest.num_leaves, 5);
    assert_eq!(leaves_of_forest(&forest).concat(), h);
}

#[test]
fn remove_one_leaf_of_eight() {
    let h: Vec<NodeHash> = (0..8u64).map(leaf_hash).collect();
    let mut forest = full_forest(&h);
    assert_eq!(forest.remove(vec![0]), Ok(vec![h[0]]));
    assert_eq!(forest.num_leaves, 7);
    check_shape(&forest);
    assert_eq!(
        leaves_of_forest(&forest),
        vec![vec![h[7], h[1], h[2], h[3]], vec![h[4], h[5]], vec![h[6]]]
    );
}

#[test]
fn remove_the_last_leaf_moves_nothing() {
    let h: Vec<NodeHash> = (0..8u64).map(leaf_hash).collect();
    let mut forest = full_forest(&h);
    assert_eq!(forest.remove(vec![7]), Ok(vec![h[7]]));
    assert_eq!(forest.num_leaves, 7);
    check_shape(&forest);
    assert_eq!(leaves_of_forest(&forest).concat(), h[..7].to_vec());
}

#[test]
fn remove_three_leaves_of_eight() {
    let h: Vec<NodeHash> = (0..8u64).map(leaf_hash).collect();
    let mut forest = full_forest(&h);
    assert_eq!(forest.remove(vec![0, 1, 2]), Ok(vec![h[0], h[1], h[2]]));
    assert_eq!(forest.num_leaves, 5);
    check_shape(&forest);
    assert_eq!(leaves_of_forest(&forest), vec![vec![h[4], h[5], h[7], h[3]], vec![h[6]]]);
}

#[test]
fn remove_keeps_the_leaves_that_are_left() {
    for n in 1..20u64 {
        let h: Vec<NodeHash> = (0..n).map(leaf_hash).collect();
        for pick in 1u64..(1u64 << n.min(9)) {
            let dels: Vec<u64> = (0..n).filter(|i| *i < 9 && (pick >> i) & 1 == 1).collect();
            let mut forest = full_forest(&h);
            let gone = forest.remove(dels.clone()).unwrap();
            assert_eq!(gone, dels.iter().map(|i| h[*i as usize]).collect::<Vec<_>>());
            assert_eq!(forest.num_leaves, n - dels.len() as u64);
            check_index(&forest, &h, &dels);
            assert_eq!(roots_of(&forest).len() as u32, forest.num_leaves.count_ones());
            check_shape(&forest);
            let mut left = leaves_of_forest(&forest).concat();
            left.sort();
            let mut expected: Vec<NodeHash> =
                (0..n).filter(|i| !dels.contains(i)).map(|i| h[i as usize]).collect();
            expected.sort();
            assert_eq!(left, expected);
        }
    }
}

#[test]
fn remove_from_the_right_end_and_the_middle() {
    for n in [13u64, 16, 21, 32, 37] {
        let h: Vec<NodeHash> = (0..n).map(leaf_hash).collect();
        for step in 1..6u64 {
            let dels: Vec<u64> = (0..n).filter(|i| (i * 7 + step) % (step + 1) == 0).collect();
            let mut forest = full_forest(&h);
            assert!(forest.remove(dels.clone()).is_ok());
            check_shape(&forest);
            check_index(&forest, &h, &dels);
            let mut left = leaves_of_forest(&forest).concat();
            left.sort();
            let mut expected: Vec<NodeHash> =
                (0..n).filter(|i| !dels.contains(i)).map(|i| h[i as usize]).collect();
            expected.sort();
            assert_eq!(left, expected);
        }
    }
}

#[test]
fn remove_then_add_goes_on() {
    let h: Vec<NodeHash> = (0..12u64).map(leaf_hash).collect();
    let mut forest = full_forest(&h[..8]);
    let kept = forest
        .modify(
            vec![
                Leaf { hash: h[8], remember: true },
                Leaf { hash: h[9], remember: false },
            ],
            vec![1, 2, 6],
        )
        .unwrap();
    assert_eq!(kept.put, vec![h[8]]);
    assert_eq!(kept.evict, vec![h[1], h[2], h[6]]);
    assert_eq!(forest.num_leaves, 7);
    assert_eq!(forest.position_of(&h[0]), Some(0));
    assert_eq!(forest.position_of(&h[7]), Some(1));
    assert_eq!(forest.position_of(&h[5]), Some(2));
    assert_eq!(forest.position_of(&h[3]), Some(3));
    assert_eq!(forest.position_of(&h[4]), Some(4));
    assert_eq!(forest.position_of(&h[8]), Some(5));
    assert_eq!(forest.position_of(&h[9]), Some(6));
    assert_eq!(forest.position_of(&h[1]), None);
    assert_eq!(forest.position_of(&h[2]), None);
    assert_eq!(forest.position_of(&h[6]), None);
    let roots = roots_of(&forest);
    assert_eq!(roots.len(), 3);
    // deleting first leaves 0, 7, 5, 3 and 4 in a tree of four and one leaf
    assert_eq!(roots[0].data, merkle_root(&[h[0], h[7], h[5], h[3]]));
    assert_eq!(roots[1].data, join(&h[4], &h[8]));
    assert_eq!(roots[2].data, h[9]);
}

#[test]
fn all_leaves_removed_leave_an_empty_forest() {
    for k in 1..70u64 {
        let mut pollard = Pollard::new();
        for i in 0..k {
            pollard.add_single(leaf_hash(i), false).unwrap();
        }
        assert_eq!(pollard.num_leaves, k);
        let gone = pollard.remove((0..k).collect()).unwrap();
        assert_eq!(gone, (0..k).map(leaf_hash).collect::<Vec<_>>());
        assert_eq!(pollard.num_leaves, 0);
        assert!(roots_of(&pollard).is_empty());
        assert!(pollard.position_index.is_empty());
    }
}

#[test]
fn whole_trees_can_go_without_what_was_pruned() {
    let mut pollard = Pollard::new();
    let h: Vec<NodeHash> = (0..7u64).map(leaf_hash).collect();
    for hash in h.iter() {
        pollard.add_single(*hash, false).unwrap();
    }
    // the single leaf at the end goes: the trees of four and two stay
    assert_eq!(pollard.remove(vec![6]), Ok(vec![h[6]]));
    assert_eq!(pollard.num_leaves, 6);
    assert_eq!(pollard.position_of(&h[6]), None);
    assert_eq!(pollard.position_of(&h[5]), Some(5));
    let roots = roots_of(&pollard);
    assert_eq!(roots.len(), 2);
    assert_eq!(roots[0].data, merkle_root(&h[..4]));
    assert_eq!(roots[1].data, join(&h[4], &h[5]));
}

#[test]
fn remove_refuses_positions_out_of_order_or_out_of_the_forest() {
    let h: Vec<NodeHash> = (0..8u64).map(leaf_hash).collect();
    let mut forest = full_forest(&h);
    assert_eq!(forest.remove(vec![8]), Err(AccumulatorError::InvalidPosition));
    assert_eq!(forest.remove(vec![3, 2]), Err(AccumulatorError::InvalidPosition));
    assert_eq!(forest.remove(vec![2, 2]), Err(AccumulatorError::InvalidPosition));
    assert_eq!(forest.remove(vec![0, 1, 2, 3, 4, 5, 6, 7, 8]), Err(AccumulatorError::InvalidPosition));
    assert_eq!(forest.num_leaves, 8);
    assert_eq!(leaves_of_forest(&forest).concat(), h);
    assert_eq!(forest.position_index.len(), 8);
    let mut empty = Pollard::new();
    assert_eq!(empty.remove(vec![0]), Err(AccumulatorError::InvalidPosition));
}

#[test]
fn remove_refuses_what_it_cannot_hash() {
    let mut pollard = Pollard::new();
    let h: Vec<NodeHash> = (0..8u64).map(leaf_hash).collect();
    for hash in h.iter() {
        pollard.add_single(*hash, false).unwrap();
    }
    let mut roots = roots_of(&pollard);
    roots[0].chop();
    pollard.roots = Some(roots);
    let before = roots_of(&pollard)[0].data;
    let r = pollard.remove(vec![0]);
    assert_eq!(r, Err(AccumulatorError::StructuralViolation));
    assert_eq!(pollard.num_leaves, 8);
    assert_eq!(roots_of(&pollard).len(), 1);
    assert_eq!(roots_of(&pollard)[0].data, before);
    let r = pollard.modify(vec![Leaf { hash: h[0], remember: false }], vec![3]);
    assert!(r.is_err());
    assert_eq!(pollard.num_leaves, 8);
}

#[test]
fn the_sibling_of_a_deleted_leaf_becomes_the_root() {
    let h0 = hash_of(&[0]);
    let h1 = hash_of(&[1]);
    let mut pollard = Pollard::new();
    pollard.add(vec![Leaf { hash: h0, remember: false }, Leaf { hash: h1, remember: false }]).unwrap();
    assert_eq!(pollard.remove(vec![0]), Ok(vec![h0]));
    assert_eq!(pollard.num_leaves, 1);
    let roots = roots_of(&pollard);
    assert_eq!(roots.len(), 1);
    assert_eq!(roots[0].data, h1);
    assert!(!is_empty(&roots[0].data));
    assert_eq!(pollard.position_of(&h1), Some(0));
    assert_eq!(pollard.position_of(&h0), None);
    // the forest goes on to take leaves
    let h2 = hash_of(&[2]);
    assert_eq!(pollard.add_single(h2, false), Ok(1));
    let roots = roots_of(&pollard);
    assert_eq!(roots.len(), 1);
    assert_eq!(roots[0].data, join(&h1, &h2));
}

#[test]
fn the_other_leaf_of_two_can_go_as_well() {
    let h0 = hash_of(&[0]);
    let h1 = hash_of(&[1]);
    let mut pollard = Pollard::new();
    pollard.add(vec![Leaf { hash: h0, remember: false }, Leaf { hash: h1, remember: false }]).unwrap();
    assert_eq!(pollard.remove(vec![1]), Ok(vec![h1]));
    assert_eq!(pollard.num_leaves, 1);
    let roots = roots_of(&pollard);
    assert_eq!(roots.len(), 1);
    assert_eq!(roots[0].data, h0);
}

#[test]
fn half_a_tree_of_four_is_left_as_the_root() {
    let h: Vec<NodeHash> = (0..4u64).map(leaf_hash).collect();
    let mut pollard = Pollard::new();
    for hash in h.iter() {
        pollard.add_single(*hash, false).unwrap();
    }
    assert_eq!(pollard.remove(vec![0, 1]), Ok(vec![h[0], h[1]]));
    assert_eq!(pollard.num_leaves, 2);
    let roots = roots_of(&pollard);
    assert_eq!(roots.len(), 1);
    assert_eq!(roots[0].data, join(&h[2], &h[3]));
    assert_eq!(leaves_of_forest(&pollard), vec![h[2..].to_vec()]);
    check_index(&pollard, &h, &[0, 1]);
    assert_eq!(pollard.add_single(leaf_hash(9), false), Ok(2));
}

#[test]
fn remove_refuses_to_hand_out_a_root_that_is_not_there() {
    // two leaves below a root that holds neither of them
    let h: Vec<NodeHash> = (0..4u64).map(leaf_hash).collect();
    let mut pollard = Pollard::new();
    pollard.add_single(h[0], false).unwrap();
    pollard.add_single(h[1], false).unwrap();
    let mut roots = roots_of(&pollard);
    roots[0].chop();
    pollard.roots = Some(roots);
    assert_eq!(pollard.remove(vec![0]), Err(AccumulatorError::StructuralViolation));
    assert_eq!(pollard.num_leaves, 2);
    assert_eq!(roots_of(&pollard).len(), 1);
    assert_eq!(roots_of(&pollard)[0].data, join(&h[0], &h[1]));
    assert_eq!(pollard.position_index.len(), 2);
    // four leaves below a root that holds none of its children
    let mut pollard = Pollard::new();
    for hash in h.iter() {
        pollard.add_single(*hash, false).unwrap();
    }
    let mut roots = roots_of(&pollard);
    roots[0].chop();
    pollard.roots = Some(roots);
    assert_eq!(pollard.remove(vec![0, 1]), Err(AccumulatorError::StructuralViolation));
    assert_eq!(pollard.num_leaves, 4);
    assert_eq!(roots_of(&pollard)[0].data, merkle_root(&h));
    assert!(matches!(
        pollard.modify(vec![Leaf { hash: leaf_hash(9), remember: false }], vec![0, 1]),
        Err(AccumulatorError::StructuralViolation)
    ));
    assert_eq!(pollard.num_leaves, 4);
    assert_eq!(pollard.position_index.len(), 4);
}

#[test]
fn remove_refuses_to_move_a_leaf_that_is_not_there() {
    let h: Vec<NodeHash> = (0..8u64).map(leaf_hash).collect();
    let mut pollard = Pollard::new();
    for hash in h.iter() {
        pollard.add_single(*hash, false).unwrap();
    }
    // the last leaf is cut off where it hangs, three levels down
    let mut roots = roots_of(&pollard);
    {
        let aunt = roots[0].l_niece.as_mut().unwrap().l_niece.as_mut().unwrap();
        assert_eq!(aunt.r_niece.as_ref().unwrap().data, h[7]);
        aunt.r_niece = None;
    }
    pollard.roots = Some(roots);
    // to delete the first leaf the last one would have to take its place
    assert_eq!(pollard.remove(vec![0]), Err(AccumulatorError::StructuralViolation));
    assert_eq!(pollard.num_leaves, 8);
    assert_eq!(roots_of(&pollard)[0].data, merkle_root(&h));
    assert_eq!(pollard.position_index.len(), 8);
    // the leaf that is not there can itself be deleted
    assert_eq!(pollard.remove(vec![7]), Ok(vec![h[7]]));
    assert_eq!(pollard.num_leaves, 7);
    let roots = roots_of(&pollard);
    assert_eq!(roots.len(), 3);
    assert_eq!(roots[0].data, merkle_root(&h[..4]));
    assert_eq!(roots[1].data, join(&h[4], &h[5]));
    assert_eq!(roots[2].data, h[6]);
}

#[test]
fn no_root_is_left_without_a_hash() {
    for n in 1..=12u64 {
        for gone in 0..n {
            let h: Vec<NodeHash> = (0..n).map(leaf_hash).collect();
            let mut pollard = Pollard::new();
            for hash in h.iter() {
                pollard.add_single(*hash, false).unwrap();
            }
            assert_eq!(pollard.remove(vec![gone]), Ok(vec![h[gone as usize]]));
            assert_eq!(pollard.num_leaves, n - 1);
            let roots = roots_of(&pollard);
            assert_eq!(roots.len() as u32, (n - 1).count_ones());
            for root in roots.iter() {
                assert!(!is_empty(&root.data));
            }
            let left: Vec<NodeHash> = leaves_of_forest(&pollard).concat();
            assert_eq!(left.len() as u64, n - 1);
            check_index(&pollard, &h, &[gone]);
            assert_eq!(pollard.add_single(leaf_hash(100), false), Ok(n - 1));
        }
    }
}
