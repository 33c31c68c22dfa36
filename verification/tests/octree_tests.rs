use svo_rs::Octant;
use svo_rs::{Error, Node, NodeType, Octree, Vector3};

#[test]
fn simplify_and_insert() {
    let mut octree = Octree::<u8>::new(32).unwrap();
    octree.insert([0, 0, 0], 1).unwrap();
    octree.insert([0, 0, 1], 1).unwrap();
    octree.insert([0, 1, 0], 1).unwrap();
    octree.insert([0, 1, 1], 1).unwrap();
    octree.insert([1, 0, 0], 1).unwrap();
    octree.insert([1, 0, 1], 1).unwrap();
    octree.insert([1, 1, 0], 1).unwrap();
    octree.insert([1, 1, 1], 1).unwrap();
    octree.insert([0, 0, 0], 2).unwrap();

    assert!(matches!(octree.get([0, 0, 0]), Some(2)));
    assert!(matches!(octree.get([0, 0, 1]), Some(1)));
}

#[test]
fn clear_at_simplified() {
    let mut octree = Octree::<u8>::new(32).unwrap();
    octree.insert([0, 0, 0], 1).unwrap();
    octree.insert([0, 0, 1], 1).unwrap();
    octree.insert([0, 1, 0], 1).unwrap();
    octree.insert([0, 1, 1], 1).unwrap();
    octree.insert([1, 0, 0], 1).unwrap();
    octree.insert([1, 0, 1], 1).unwrap();
    octree.insert([1, 1, 0], 1).unwrap();
    octree.insert([1, 1, 1], 1).unwrap();

    octree.clear_at([1, 1, 1]).unwrap();

    assert!(matches!(octree.get([1, 1, 1]), Some(0)));
    assert!(matches!(octree.get([0, 0, 0]), Some(1)));
}

#[test]
fn indexed_access() {
    const DIM: u32 = 32;
    let mut octree = Octree::<u32>::new(DIM).unwrap();
    for x in 0..DIM {
        for y in 0..DIM {
            for z in 0..DIM {
                let result = octree.insert([x, y, z], x + y + z + 1);
                assert!(result.is_ok());
            }
        }
    }

    for x in 0..DIM {
        for y in 0..DIM {
            for z in 0..DIM {
                let expected = x + y + z + 1;
                let result = octree.get([x, y, z]);
                assert!(result.is_some());
                if let Some(value) = result {
                    assert!(value == expected);
                };
            }
        }
    }
}

#[test]
fn basic_serialization() {
    let mut octree = Octree::<u8>::new(32).unwrap();
    octree.insert([0, 0, 0], 1).unwrap();
    octree.insert([0, 0, 1], 1).unwrap();
    octree.insert([0, 1, 0], 1).unwrap();
    octree.insert([0, 1, 1], 1).unwrap();
    octree.insert([1, 0, 0], 1).unwrap();
    octree.insert([1, 0, 1], 1).unwrap();
    octree.insert([1, 1, 0], 1).unwrap();
    octree.insert([1, 1, 1], 1).unwrap();

    octree.clear_at([1, 1, 1]).unwrap();

    assert!(matches!(octree.get([1, 1, 1]), Some(0)));
    assert!(matches!(octree.get([0, 0, 0]), Some(1)));

    let serialized = octree.serialize();
    let mut octree: Octree<u8> = Octree::new(32).unwrap();
    octree.deserialize(serialized).unwrap();
    assert!(matches!(octree.get([1, 1, 1]), Some(0)));
    assert!(matches!(octree.get([0, 0, 0]), Some(1)));
}

#[test]
fn single_point_lookup() {
    let mut octree = Octree::<u8>::new(32).unwrap();
    let res = octree.insert([9, 8, 31], 1);
    assert!(res.is_ok());
    assert!(matches!(octree.get([9, 8, 31]), Some(1)));
    assert!(octree.get([20, 1, 12]).is_none());
}

#[test]
fn split_preserves_siblings() {
    let mut octree = Octree::<u8>::new(32).unwrap();
    octree.insert([0, 0, 0], 1).unwrap();
    octree.insert([0, 0, 1], 1).unwrap();
    octree.insert([0, 1, 0], 1).unwrap();
    octree.insert([0, 1, 1], 1).unwrap();
    octree.insert([1, 0, 0], 1).unwrap();
    octree.insert([1, 0, 1], 1).unwrap();
    octree.insert([1, 1, 0], 1).unwrap();
    octree.insert([1, 1, 1], 1).unwrap();
    octree.insert([0, 0, 0], 2).unwrap();
    assert!(matches!(octree.get([0, 0, 0]), Some(2)));
    assert!(matches!(octree.get([0, 0, 1]), Some(1)));
}

#[test]
fn non_power_of_two_dimension_rejected() {
    let octree = Octree::<u8>::new(15);
    assert!(matches!(octree, Err(Error::InvalidDimension(15))));
    let octree = Octree::<u8>::new(0);
    assert!(matches!(octree, Err(Error::InvalidDimension(0))));
    let octree = Octree::<u8>::new(32);
    assert!(octree.is_ok());
    let octree = Octree::<u8>::new(1);
    assert!(octree.is_ok());
}

#[test]
fn out_of_bounds_rejected() {
    let mut octree = Octree::<u8>::new(32).unwrap();
    octree.insert([1, 2, 3], 9).unwrap();
    let res = octree.insert([32, 0, 0], 1);
    assert!(matches!(res, Err(Error::InvalidPosition { x: 32, y: 0, z: 0 })));
    let res = octree.clear_at([0, 33, 0]);
    assert!(matches!(res, Err(Error::InvalidPosition { x: 0, y: 33, z: 0 })));
    assert!(octree.get([0, 0, 32]).is_none());
    assert!(matches!(octree.get([1, 2, 3]), Some(9)));
    assert!(octree.contains([16, 29, 7]));
    assert!(!octree.contains([16, 29, 33]));
}

#[test]
fn simplify_on_fresh_tree_is_noop() {
    let mut octree = Octree::<u8>::new(8).unwrap();
    assert!(!octree.simplify());
    // a fresh tree is one default leaf covering the whole domain
    assert!(matches!(octree.get([3, 3, 3]), Some(0)));
    let mut again = Octree::<u8>::new(8).unwrap();
    again.insert([0, 0, 0], 1).unwrap();
    again.clear();
    assert!(!again.simplify());
}

#[test]
fn uniform_fill_collapses() {
    let mut octree = Octree::<u8>::new(2).unwrap();
    octree.insert([1, 0, 1], 5).unwrap();
    octree.insert([0, 0, 0], 5).unwrap();
    octree.insert([1, 1, 1], 5).unwrap();
    octree.insert([0, 0, 1], 5).unwrap();
    octree.insert([1, 0, 0], 5).unwrap();
    octree.insert([0, 1, 1], 5).unwrap();
    octree.insert([1, 1, 0], 5).unwrap();
    octree.insert([0, 1, 0], 5).unwrap();
    assert!(octree.simplify());
    for x in 0..2 {
        for y in 0..2 {
            for z in 0..2 {
                assert!(matches!(octree.get([x, y, z]), Some(5)));
            }
        }
    }
    assert!(!octree.simplify());
}

#[test]
fn uniform_fill_collapses_at_coarser_grain() {
    // after one level-of-detail step the minimum side length is 2: one
    // write per octant cell of the root, in scattered order, still
    // collapses the whole tree
    let mut octree = Octree::<u8>::new(4).unwrap();
    octree.lod_down();
    assert_eq!(octree.min_dimension(), 2);
    octree.insert([2, 0, 2], 5).unwrap();
    octree.insert([0, 0, 0], 5).unwrap();
    octree.insert([3, 3, 3], 5).unwrap();
    octree.insert([0, 0, 2], 5).unwrap();
    octree.insert([2, 0, 0], 5).unwrap();
    octree.insert([0, 2, 2], 5).unwrap();
    octree.insert([2, 2, 0], 5).unwrap();
    octree.insert([0, 2, 0], 5).unwrap();
    assert!(octree.simplify());
    for x in 0..4 {
        for y in 0..4 {
            for z in 0..4 {
                assert!(matches!(octree.get([x, y, z]), Some(5)));
            }
        }
    }
}

#[test]
fn full_fill_simplifies() {
    const DIM: u32 = 8;
    let mut octree = Octree::<u32>::new(DIM).unwrap();
    for x in 0..DIM {
        for y in 0..DIM {
            for z in 0..DIM {
                octree.insert([x, y, z], 5).unwrap();
            }
        }
    }
    assert!(octree.simplify());
    for x in 0..DIM {
        for y in 0..DIM {
            for z in 0..DIM {
                assert!(matches!(octree.get([x, y, z]), Some(5)));
            }
        }
    }
}

#[test]
fn lod_down_majority_vote() {
    let mut octree = Octree::<u8>::new(32).unwrap();
    octree.insert([0, 0, 0], 2).unwrap();
    octree.insert([0, 0, 1], 2).unwrap();
    octree.insert([0, 1, 0], 1).unwrap();
    octree.insert([0, 1, 1], 2).unwrap();
    octree.insert([1, 0, 0], 1).unwrap();
    octree.insert([1, 0, 1], 2).unwrap();
    octree.insert([1, 1, 0], 2).unwrap();
    octree.insert([1, 1, 1], 1).unwrap();

    octree.lod_down();
    assert!(matches!(octree.get([0, 1, 0]), Some(2)));
    assert_eq!(octree.curr_lod_level(), 2);
    assert_eq!(octree.min_dimension(), 2);
}

#[test]
fn lod_up_allows_finer_writes() {
    let mut octree = Octree::<u8>::new(32).unwrap();
    octree.insert([0, 0, 0], 2).unwrap();
    octree.insert([0, 0, 1], 2).unwrap();
    octree.insert([0, 1, 0], 1).unwrap();
    octree.insert([0, 1, 1], 2).unwrap();
    octree.insert([1, 0, 0], 1).unwrap();
    octree.insert([1, 0, 1], 2).unwrap();
    octree.insert([1, 1, 0], 2).unwrap();
    octree.insert([1, 1, 1], 1).unwrap();

    octree.lod_down();
    assert!(matches!(octree.get([0, 1, 0]), Some(2)));

    octree.lod_up();
    octree.insert([0, 0, 0], 1).unwrap();
    assert!(matches!(octree.get([0, 0, 0]), Some(1)));
    assert!(matches!(octree.get([0, 0, 1]), Some(2)));
}

#[test]
fn lod_ties_break_to_lowest_octant() {
    let mut octree = Octree::<u8>::new(2).unwrap();
    octree.insert([0, 0, 0], 4).unwrap();
    octree.insert([1, 0, 0], 7).unwrap();
    octree.insert([0, 1, 0], 4).unwrap();
    octree.insert([1, 1, 0], 7).unwrap();
    octree.insert([0, 0, 1], 4).unwrap();
    octree.insert([1, 0, 1], 7).unwrap();
    octree.insert([0, 1, 1], 4).unwrap();
    octree.insert([1, 1, 1], 7).unwrap();
    octree.lod_down();
    // four of each value: the value of the lowest octant index wins
    assert!(matches!(octree.get([1, 1, 1]), Some(4)));
}

#[test]
fn dimension_one_tree() {
    let mut octree = Octree::<u8>::new(1).unwrap();
    assert_eq!(octree.dimension(), 1);
    octree.insert([0, 0, 0], 3).unwrap();
    assert!(matches!(octree.get([0, 0, 0]), Some(3)));
    assert!(octree.get([1, 0, 0]).is_none());
    octree.lod_down();
    assert_eq!(octree.min_dimension(), 1);
    assert!(matches!(octree.get([0, 0, 0]), Some(3)));
}

#[test]
fn clear_resets_tree() {
    let mut octree = Octree::<u8>::new(32).unwrap();
    octree.insert([0, 0, 0], 1).unwrap();
    octree.insert([0, 0, 1], 1).unwrap();
    octree.clear();
    assert!(matches!(octree.get([0, 0, 0]), Some(0)));
    assert!(matches!(octree.get([0, 0, 1]), Some(0)));
}

#[test]
fn auto_simplify_round_trip() {
    let mut octree = Octree::<u8>::new(4).unwrap();
    assert!(!octree.auto_simplify());
    octree.set_auto_simplify(true);
    assert!(octree.auto_simplify());
    for x in 0..2 {
        for y in 0..2 {
            for z in 0..2 {
                octree.insert([x, y, z], 9).unwrap();
            }
        }
    }
    assert!(matches!(octree.get([1, 1, 1]), Some(9)));
}

#[test]
fn node_direct_operations() {
    let mut node = Node::<u8>::new(Vector3::new(0, 0, 0), 4);
    assert_eq!(node.dimension(), 4);
    assert!(node.is_leaf());
    assert!(matches!(node.leaf_data(), Some(0)));
    assert_eq!(node.child_count(), 0);
    assert!(node.contains(Vector3::new(3, 3, 3)));
    assert!(!node.contains(Vector3::new(4, 0, 0)));

    node.insert(Vector3::new(1, 1, 1), 1, false, 7).unwrap();
    assert!(!node.is_leaf());
    assert!(matches!(node.get(Vector3::new(1, 1, 1)), Some(7)));
    assert!(node.get(Vector3::new(3, 3, 3)).is_none());

    node.clear(Vector3::new(1, 1, 1), 1).unwrap();
    assert!(matches!(node.get(Vector3::new(1, 1, 1)), Some(0)));

    let res = node.insert(Vector3::new(9, 0, 0), 1, false, 7);
    assert!(matches!(res, Err(Error::InvalidPosition { x: 9, y: 0, z: 0 })));
}

#[test]
fn node_snapshot_round_trip() {
    let mut node = Node::<u8>::new(Vector3::new(0, 0, 0), 8);
    node.insert(Vector3::new(0, 0, 0), 1, false, 3).unwrap();
    node.insert(Vector3::new(7, 7, 7), 1, false, 4).unwrap();
    let flat = node.serialize();
    assert!(flat.len() > 1);
    // the root record sits at position 0 and no link points at it
    for rec in flat.iter() {
        for slot in 0..8 {
            let c = rec.get_child_idx(slot);
            assert!(c == 0 || c < flat.len());
        }
    }
    let rebuilt = Node::<u8>::deserialize(flat).unwrap();
    assert!(matches!(rebuilt.get(Vector3::new(0, 0, 0)), Some(3)));
    assert!(matches!(rebuilt.get(Vector3::new(7, 7, 7)), Some(4)));
    assert!(rebuilt.get(Vector3::new(3, 3, 3)).is_none());
}

fn flat_u8(ty: NodeType<u8>, min: [u32; 3], dim: u32) -> svo_rs::FlatNode<u8> {
    svo_rs::FlatNode::<u8> {
        ty,
        min_position: Vector3::new(min[0], min[1], min[2]),
        dimension: dim,
        child0: 0,
        child1: 0,
        child2: 0,
        child3: 0,
        child4: 0,
        child5: 0,
        child6: 0,
        child7: 0,
    }
}

#[test]
fn out_of_order_snapshot_accepted() {
    // root at position 0, its octant-0 child at position 2, and that
    // child's own octant-0 child at position 1: a child may sit at a lower
    // position than its parent
    let mut root = flat_u8(NodeType::Internal, [0, 0, 0], 4);
    root.child0 = 2;
    let grand = flat_u8(NodeType::Leaf(7), [0, 0, 0], 1);
    let mut mid = flat_u8(NodeType::Internal, [0, 0, 0], 2);
    mid.child0 = 1;
    let records = vec![root, grand, mid];
    let mut octree = Octree::<u8>::new(4).unwrap();
    octree.deserialize(records).unwrap();
    assert!(matches!(octree.get([0, 0, 0]), Some(7)));
    assert!(octree.get([1, 1, 1]).is_none());
    assert!(octree.get([3, 3, 3]).is_none());
}

#[test]
fn unlinked_records_are_dropped() {
    // a record nothing links to is never visited and simply dropped
    let mut root = flat_u8(NodeType::Internal, [0, 0, 0], 2);
    root.child7 = 1;
    let corner = flat_u8(NodeType::Leaf(3), [1, 1, 1], 1);
    let stray = flat_u8(NodeType::Leaf(9), [0, 0, 0], 1);
    let records = vec![root, corner, stray];
    let mut octree = Octree::<u8>::new(2).unwrap();
    octree.deserialize(records).unwrap();
    assert!(matches!(octree.get([1, 1, 1]), Some(3)));
    assert!(octree.get([0, 0, 0]).is_none());
}

#[test]
fn malformed_snapshots_rejected() {
    // an empty list has no root record
    let empty: Vec<svo_rs::FlatNode<u8>> = Vec::new();
    assert!(matches!(Node::<u8>::deserialize(empty), Err(Error::MalformedTree)));

    // a record claimed by the root and by itself at once
    let rec = |child0: usize| svo_rs::FlatNode::<u8> {
        ty: NodeType::Internal,
        min_position: Vector3::new(0, 0, 0),
        dimension: 2,
        child0,
        child1: 0,
        child2: 0,
        child3: 0,
        child4: 0,
        child5: 0,
        child6: 0,
        child7: 0,
    };
    let cyclic = vec![rec(1), rec(1)];
    assert!(matches!(Node::<u8>::deserialize(cyclic), Err(Error::MalformedTree)));

    // a link that runs off the end of the list
    let dangling = vec![rec(5)];
    assert!(matches!(Node::<u8>::deserialize(dangling), Err(Error::MalformedTree)));

    // two parents claiming one record
    let mut a = rec(1);
    a.child1 = 2;
    let mut b = rec(0);
    b.child0 = 2;
    let doubly_claimed = vec![a, b, rec(0)];
    assert!(matches!(Node::<u8>::deserialize(doubly_claimed), Err(Error::MalformedTree)));
}

#[test]
fn octree_deserialize_validates_domain() {
    let mut small = Octree::<u8>::new(4).unwrap();
    let mut large = Octree::<u8>::new(8).unwrap();
    large.insert([0, 0, 0], 1).unwrap();
    let snapshot = large.serialize();
    // a snapshot of an 8-wide tree does not fit a 4-wide octree
    assert!(matches!(small.deserialize(snapshot), Err(Error::MalformedTree)));
    assert!(matches!(small.get([0, 0, 0]), Some(0)));
}

#[test]
fn set_lod_level_bookkeeping() {
    let mut octree = Octree::<u8>::new(32).unwrap();
    assert_eq!(octree.max_lod_level(), 5);
    assert_eq!(octree.curr_lod_level(), 1);
    octree.set_lod_level(3).unwrap();
    assert_eq!(octree.curr_lod_level(), 3);
    assert_eq!(octree.min_dimension(), 4);
    assert!(matches!(octree.set_lod_level(0), Err(Error::InvalidDimension(0))));
    assert!(matches!(octree.set_lod_level(6), Err(Error::InvalidDimension(6))));
    octree.set_lod_level(1).unwrap();
    assert_eq!(octree.min_dimension(), 1);
}

#[test]
fn vector_component_operations() {
    let a = Vector3::new(1, 2, 3);
    let b = Vector3::new(4, 5, 6);
    let m = a.component_mul(&b);
    assert_eq!((m.x, m.y, m.z), (4, 10, 18));
    let s = a.scl(3);
    assert_eq!((s.x, s.y, s.z), (3, 6, 9));
    let o = a.offset(10);
    assert_eq!((o.x, o.y, o.z), (11, 12, 13));
    let p = a.plus(b);
    assert_eq!((p.x, p.y, p.z), (5, 7, 9));
    assert_eq!(a.to_array(), [1, 2, 3]);
    let f = Vector3::from_array([7, 8, 9]);
    assert_eq!((f.x, f.y, f.z), (7, 8, 9));
}

#[test]
fn octant_encoding() {
    // index combines (z_bit << 2) | (y_bit << 1) | x_bit
    for i in 0..8 {
        let oct = Octant::from_index(i);
        assert_eq!(oct.index(), i);
        let off = oct.offset();
        assert_eq!(off.x as usize, i % 2);
        assert_eq!(off.y as usize, (i / 2) % 2);
        assert_eq!(off.z as usize, i / 4);
    }
    let mid = Vector3::new(2, 2, 2);
    assert_eq!(Octant::vector_diff(mid, Vector3::new(1, 1, 1)).index(), 0);
    assert_eq!(Octant::vector_diff(mid, Vector3::new(3, 1, 1)).index(), 1);
    assert_eq!(Octant::vector_diff(mid, Vector3::new(1, 3, 1)).index(), 2);
    assert_eq!(Octant::vector_diff(mid, Vector3::new(1, 1, 3)).index(), 4);
    assert_eq!(Octant::vector_diff(mid, Vector3::new(3, 3, 3)).index(), 7);
}

#[test]
fn clear_at_preserves_siblings_of_leaf() {
    // clearing one cell of a uniform region keeps the rest of the region
    let mut octree = Octree::<u8>::new(2).unwrap();
    for x in 0..2 {
        for y in 0..2 {
            for z in 0..2 {
                octree.insert([x, y, z], 6).unwrap();
            }
        }
    }
    assert!(octree.simplify());
    octree.clear_at([1, 0, 1]).unwrap();
    assert!(matches!(octree.get([1, 0, 1]), Some(0)));
    assert!(matches!(octree.get([0, 0, 0]), Some(6)));
    assert!(matches!(octree.get([1, 1, 1]), Some(6)));
}
