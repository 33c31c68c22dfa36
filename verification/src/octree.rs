use vstd::prelude::*;

use crate::codec::{lemma_tree_matches_unique, snapshot_wf, spec_flatten, tree_matches, FlatNode};
use crate::error::Error;
use crate::node::{
    in_region, is_pow2, lemma_pow2_of_32, lemma_pow2_of_is_pow2, lemma_pow2_of_mono, pow2_of,
    LeafValue, Node,
};
use crate::vector::Vector3;

verus! {

/// The octree façade: one root node covering the whole cubic domain, the
/// domain's side length, and the level-of-detail bookkeeping that maps the
/// current level to the minimum addressable side length.
pub struct Octree<V: LeafValue> {
    auto_simplify: bool,
    dimension: u32,
    curr_lod_level: u32,
    max_lod_level: u32,
    min_dimension: u32,
    root: Box<Node<V>>,
}

impl<V: LeafValue> Octree<V> {
    /// The root node.
    pub closed spec fn spec_root(self) -> Node<V> {
        *self.root
    }

    /// The domain's side length.
    pub closed spec fn spec_dimension(self) -> u32 {
        self.dimension
    }

    /// The side length of the smallest region a point operation may write.
    pub closed spec fn spec_min_dimension(self) -> u32 {
        self.min_dimension
    }

    /// The current level of detail, 1 at the finest.
    pub closed spec fn spec_curr_lod_level(self) -> u32 {
        self.curr_lod_level
    }

    /// The coarsest level of detail: the base-two logarithm of the domain's
    /// side length.
    pub closed spec fn spec_max_lod_level(self) -> u32 {
        self.max_lod_level
    }

    /// Whether mutating operations simplify on their way back up.
    pub closed spec fn spec_auto_simplify(self) -> bool {
        self.auto_simplify
    }

    /// The domain's lower corner.
    pub open spec fn spec_origin() -> Vector3 {
        Vector3 { x: 0, y: 0, z: 0 }
    }

    /// The point a coordinate array names.
    pub open spec fn spec_point(position: [u32; 3]) -> Vector3 {
        Vector3 { x: position[0], y: position[1], z: position[2] }
    }

    /// The value stored at `position`, if any.
    pub open spec fn spec_get(self, position: [u32; 3]) -> Option<V> {
        self.spec_root().lookup(Self::spec_point(position))
    }

    /// Whether `position` lies inside the domain.
    pub open spec fn spec_contains(self, position: [u32; 3]) -> bool {
        in_region(Self::spec_origin(), self.spec_dimension(), Self::spec_point(position))
    }

    #[verifier::type_invariant]
    spec fn inv(self) -> bool {
        &&& self.root.wf()
        &&& self.root.dimension == self.dimension
        &&& self.root.min_position == Self::spec_origin()
        &&& self.dimension >= 1
        &&& is_pow2(self.dimension as int)
        &&& self.curr_lod_level >= 1
        &&& self.max_lod_level <= 31
        &&& self.dimension as int == pow2_of(self.max_lod_level as nat)
        &&& (self.curr_lod_level <= self.max_lod_level || self.curr_lod_level == 1)
        &&& self.min_dimension as int == pow2_of((self.curr_lod_level - 1) as nat)
        &&& self.min_dimension >= 1
        &&& is_pow2(self.min_dimension as int)
        &&& self.min_dimension <= self.dimension
    }

    /// Two to the power `e`, executably.
    fn pow2_exec(e: u32) -> (r: u32)
        requires
            e <= 31,
        ensures
            r as int == pow2_of(e as nat),
    {
        let mut r: u32 = 1;
        let mut i: u32 = 0;
        while i < e
            invariant
                i <= e,
                e <= 31,
                r as int == pow2_of(i as nat),
            decreases e - i,
        {
            proof {
                lemma_pow2_of_mono((i + 1) as nat, 31);
                lemma_pow2_of_32();
            }
            r = r * 2;
            i = i + 1;
        }
        r
    }

    /// Creates a new `Octree<V>` of the given dimension, which must be a
    /// power of two; the tree starts as a single default leaf at the finest
    /// level of detail, with automatic simplification off.
    pub fn new(dimension: u32) -> (r: Result<Self, Error>)
        ensures
            match r {
                Ok(t) => {
                    &&& is_pow2(dimension as int)
                    &&& t.spec_dimension() == dimension
                    &&& t.spec_root() == Node::<V>::spec_leaf(
                        Self::spec_origin(),
                        dimension,
                        V::default_spec(),
                    )
                    &&& t.spec_curr_lod_level() == 1
                    &&& t.spec_min_dimension() == 1
                    &&& !t.spec_auto_simplify()
                    &&& pow2_of(t.spec_max_lod_level() as nat) == dimension
                },
                Err(e) => {
                    &&& !is_pow2(dimension as int)
                    &&& e == Error::InvalidDimension(dimension)
                },
            },
    {
        if dimension == 0 {
            return Err(Error::InvalidDimension(dimension));
        }
        let mut d: u32 = dimension;
        let mut level: u32 = 0;
        while d > 1
            invariant
                1 <= d <= dimension,
                level <= 31,
                d as int * pow2_of(level as nat) == dimension,
                is_pow2(dimension as int) <==> is_pow2(d as int),
            decreases d,
        {
            if d % 2 != 0 {
                return Err(Error::InvalidDimension(dimension));
            }
            proof {
                assert(d == 2 * (d / 2));
                assert((d / 2) as int * pow2_of((level + 1) as nat) == d as int * pow2_of(
                    level as nat,
                )) by (nonlinear_arith)
                    requires
                        d == 2 * (d / 2) && pow2_of((level + 1) as nat) == 2 * pow2_of(
                            level as nat,
                        ),
                ;
                if level == 31 {
                    lemma_pow2_of_32();
                    assert(d as int * pow2_of(31) >= 2 * pow2_of(31)) by (nonlinear_arith)
                        requires
                            d >= 2 && pow2_of(31) >= 1,
                    ;
                    assert(false);
                }
            }
            d = d / 2;
            level = level + 1;
        }
        proof {
            lemma_pow2_of_is_pow2(level as nat);
        }
        let root = Box::new(Node::<V>::new(Vector3::new(0, 0, 0), dimension));
        Ok(
            Octree {
                auto_simplify: false,
                dimension,
                curr_lod_level: 1,
                max_lod_level: level,
                min_dimension: 1,
                root,
            },
        )
    }

    /// Inserts data of type `V` at the given position. Fails, mutating
    /// nothing, if the position does not exist within the confines of the
    /// `Octree`; afterwards the position reads back the inserted value.
    pub fn insert(&mut self, position: [u32; 3], data: V) -> (r: Result<(), Error>)
        ensures
            final(self).spec_dimension() == old(self).spec_dimension(),
            final(self).spec_min_dimension() == old(self).spec_min_dimension(),
            final(self).spec_curr_lod_level() == old(self).spec_curr_lod_level(),
            final(self).spec_max_lod_level() == old(self).spec_max_lod_level(),
            final(self).spec_auto_simplify() == old(self).spec_auto_simplify(),
            match r {
                Ok(()) => {
                    &&& old(self).spec_contains(position)
                    &&& final(self).spec_root() == Node::spec_insert(
                        old(self).spec_root(),
                        Self::spec_point(position),
                        old(self).spec_min_dimension(),
                        old(self).spec_auto_simplify(),
                        data,
                    )
                    &&& final(self).spec_get(position) == Some(data)
                },
                Err(e) => {
                    &&& !old(self).spec_contains(position)
                    &&& *final(self) == *old(self)
                    &&& e == (Error::InvalidPosition {
                        x: position[0],
                        y: position[1],
                        z: position[2],
                    })
                },
            },
    {
        proof {
            use_type_invariant(&*self);
        }
        let ghost r0 = *self.root;
        let p = Vector3::from_array(position);
        let mut root = Box::new(Node::<V>::new(Vector3::new(0, 0, 0), self.dimension));
        core::mem::swap(&mut root, &mut self.root);
        let res = (&mut *root).insert(p, self.min_dimension, self.auto_simplify, data);
        proof {
            if res is Ok {
                Node::lemma_insert_lookup(
                    r0,
                    p,
                    old(self).spec_min_dimension(),
                    old(self).spec_auto_simplify(),
                    data,
                );
            }
        }
        core::mem::swap(&mut root, &mut self.root);
        res
    }

    /// Retrieves the data stored at the given position. Since the `Octree`
    /// is sparse, returns `None` where nothing was stored.
    pub fn get(&self, position: [u32; 3]) -> (r: Option<V>)
        ensures
            r == self.spec_get(position),
    {
        proof {
            use_type_invariant(&*self);
        }
        self.root.get(Vector3::from_array(position))
    }

    /// Clears the data at the given position, writing the default value in
    /// its place. Fails, mutating nothing, if the position does not exist
    /// within the confines of the `Octree`; afterwards the position reads
    /// back the default value.
    pub fn clear_at(&mut self, position: [u32; 3]) -> (r: Result<(), Error>)
        ensures
            final(self).spec_dimension() == old(self).spec_dimension(),
            final(self).spec_min_dimension() == old(self).spec_min_dimension(),
            final(self).spec_curr_lod_level() == old(self).spec_curr_lod_level(),
            final(self).spec_max_lod_level() == old(self).spec_max_lod_level(),
            final(self).spec_auto_simplify() == old(self).spec_auto_simplify(),
            match r {
                Ok(()) => {
                    &&& old(self).spec_contains(position)
                    &&& final(self).spec_root() == Node::spec_clear(
                        old(self).spec_root(),
                        Self::spec_point(position),
                        old(self).spec_min_dimension(),
                    )
                    &&& final(self).spec_get(position) == Some(V::default_spec())
                },
                Err(e) => {
                    &&& !old(self).spec_contains(position)
                    &&& *final(self) == *old(self)
                    &&& e == (Error::InvalidPosition {
                        x: position[0],
                        y: position[1],
                        z: position[2],
                    })
                },
            },
    {
        proof {
            use_type_invariant(&*self);
        }
        let ghost r0 = *self.root;
        let p = Vector3::from_array(position);
        let mut root = Box::new(Node::<V>::new(Vector3::new(0, 0, 0), self.dimension));
        core::mem::swap(&mut root, &mut self.root);
        let res = (&mut *root).clear(p, self.min_dimension);
        proof {
            if res is Ok {
                Node::lemma_clear_lookup(r0, p, old(self).spec_min_dimension());
            }
        }
        core::mem::swap(&mut root, &mut self.root);
        res
    }

    /// Resets the `Octree` to a single default-valued leaf at full
    /// dimension.
    pub fn clear(&mut self)
        ensures
            final(self).spec_dimension() == old(self).spec_dimension(),
            final(self).spec_min_dimension() == old(self).spec_min_dimension(),
            final(self).spec_curr_lod_level() == old(self).spec_curr_lod_level(),
            final(self).spec_max_lod_level() == old(self).spec_max_lod_level(),
            final(self).spec_auto_simplify() == old(self).spec_auto_simplify(),
            final(self).spec_root() == Node::<V>::spec_leaf(
                Self::spec_origin(),
                old(self).spec_dimension(),
                V::default_spec(),
            ),
    {
        proof {
            use_type_invariant(&*self);
        }
        self.root = Box::new(Node::<V>::new(Vector3::new(0, 0, 0), self.dimension));
    }

    /// The level of detail one step coarser than `curr`, saturating at the
    /// coarsest level and never falling below 1.
    pub open spec fn spec_next_lod_level(curr: u32, max: u32) -> u32 {
        let lvl = if curr + 1 >= max {
            max
        } else {
            (curr + 1) as u32
        };
        if lvl < 1 {
            1u32
        } else {
            lvl
        }
    }

    /// Moves the level of detail one step coarser: the root is collapsed by
    /// majority vote and the minimum addressable side length doubles,
    /// saturating at the domain's own scale.
    pub fn lod_down(&mut self)
        ensures
            final(self).spec_dimension() == old(self).spec_dimension(),
            final(self).spec_max_lod_level() == old(self).spec_max_lod_level(),
            final(self).spec_auto_simplify() == old(self).spec_auto_simplify(),
            final(self).spec_root() == Node::spec_lod(old(self).spec_root()),
            final(self).spec_curr_lod_level() == Self::spec_next_lod_level(
                old(self).spec_curr_lod_level(),
                old(self).spec_max_lod_level(),
            ),
            final(self).spec_min_dimension() as int == pow2_of(
                (final(self).spec_curr_lod_level() - 1) as nat,
            ),
    {
        proof {
            use_type_invariant(&*self);
        }
        let ghost r0 = *self.root;
        let level0 = if self.curr_lod_level + 1 >= self.max_lod_level {
            self.max_lod_level
        } else {
            self.curr_lod_level + 1
        };
        let level = if level0 < 1 {
            1
        } else {
            level0
        };
        let min_dimension = Self::pow2_exec(level - 1);
        proof {
            lemma_pow2_of_is_pow2((level - 1) as nat);
            if level <= self.max_lod_level {
                lemma_pow2_of_mono((level - 1) as nat, self.max_lod_level as nat);
            }
            Node::lemma_lod_wf(r0);
        }
        let mut root = Box::new(Node::<V>::new(Vector3::new(0, 0, 0), self.dimension));
        core::mem::swap(&mut root, &mut self.root);
        (&mut *root).lod();
        *self = Octree {
            auto_simplify: self.auto_simplify,
            dimension: self.dimension,
            curr_lod_level: level,
            max_lod_level: self.max_lod_level,
            min_dimension,
            root,
        };
    }

    /// The level of detail one step finer than `curr`, never falling below
    /// 1.
    pub open spec fn spec_prev_lod_level(curr: u32) -> u32 {
        if curr - 1 <= 0 {
            1u32
        } else {
            (curr - 1) as u32
        }
    }

    /// Moves the level of detail one step finer: the tree's structure is
    /// unchanged, but later point operations may address half the previous
    /// minimum side length.
    pub fn lod_up(&mut self)
        ensures
            final(self).spec_dimension() == old(self).spec_dimension(),
            final(self).spec_max_lod_level() == old(self).spec_max_lod_level(),
            final(self).spec_auto_simplify() == old(self).spec_auto_simplify(),
            final(self).spec_root() == old(self).spec_root(),
            final(self).spec_curr_lod_level() == Self::spec_prev_lod_level(
                old(self).spec_curr_lod_level(),
            ),
            final(self).spec_min_dimension() as int == pow2_of(
                (final(self).spec_curr_lod_level() - 1) as nat,
            ),
    {
        proof {
            use_type_invariant(&*self);
        }
        let level = if self.curr_lod_level - 1 <= 0 {
            1
        } else {
            self.curr_lod_level - 1
        };
        let min_dimension = Self::pow2_exec(level - 1);
        proof {
            lemma_pow2_of_is_pow2((level - 1) as nat);
            lemma_pow2_of_mono((level - 1) as nat, (self.curr_lod_level - 1) as nat);
        }
        let mut root = Box::new(Node::<V>::new(Vector3::new(0, 0, 0), self.dimension));
        core::mem::swap(&mut root, &mut self.root);
        *self = Octree {
            auto_simplify: self.auto_simplify,
            dimension: self.dimension,
            curr_lod_level: level,
            max_lod_level: self.max_lod_level,
            min_dimension,
            root,
        };
    }

    /// Returns the dimension of the root node.
    pub fn dimension(&self) -> (r: u32)
        ensures
            r == self.spec_dimension(),
    {
        proof {
            use_type_invariant(&*self);
        }
        self.root.dimension()
    }

    /// Returns whether the given position exists within the confines of the
    /// `Octree`.
    pub fn contains(&self, position: [u32; 3]) -> (r: bool)
        ensures
            r == self.spec_contains(position),
    {
        proof {
            use_type_invariant(&*self);
        }
        self.root.contains(Vector3::from_array(position))
    }

    /// Simplifies the nodes wherever possible, depth first; returns whether
    /// the root node itself could be simplified.
    pub fn simplify(&mut self) -> (r: bool)
        ensures
            final(self).spec_dimension() == old(self).spec_dimension(),
            final(self).spec_min_dimension() == old(self).spec_min_dimension(),
            final(self).spec_curr_lod_level() == old(self).spec_curr_lod_level(),
            final(self).spec_max_lod_level() == old(self).spec_max_lod_level(),
            final(self).spec_auto_simplify() == old(self).spec_auto_simplify(),
            final(self).spec_root() == Node::spec_simplify_rec(old(self).spec_root()).0,
            r == Node::spec_simplify_rec(old(self).spec_root()).1,
    {
        proof {
            use_type_invariant(&*self);
        }
        let ghost r0 = *self.root;
        let mut root = Box::new(Node::<V>::new(Vector3::new(0, 0, 0), self.dimension));
        core::mem::swap(&mut root, &mut self.root);
        let res = (&mut *root).simplify_recursive();
        proof {
            Node::lemma_simplify_rec_wf(r0);
        }
        core::mem::swap(&mut root, &mut self.root);
        res
    }

    /// Restores the level-of-detail bookkeeping to `level` without touching
    /// the tree: the minimum addressable side length becomes two to the
    /// power `level - 1`. A level of 0, or one coarser than the domain
    /// allows, is rejected unchanged.
    pub fn set_lod_level(&mut self, level: u32) -> (r: Result<(), Error>)
        ensures
            final(self).spec_dimension() == old(self).spec_dimension(),
            final(self).spec_max_lod_level() == old(self).spec_max_lod_level(),
            final(self).spec_auto_simplify() == old(self).spec_auto_simplify(),
            final(self).spec_root() == old(self).spec_root(),
            match r {
                Ok(()) => {
                    &&& level >= 1
                    &&& (level <= old(self).spec_max_lod_level() || level == 1)
                    &&& final(self).spec_curr_lod_level() == level
                    &&& final(self).spec_min_dimension() as int == pow2_of((level - 1) as nat)
                },
                Err(e) => {
                    &&& (level < 1 || (level > old(self).spec_max_lod_level() && level != 1))
                    &&& *final(self) == *old(self)
                    &&& e == Error::InvalidDimension(level)
                },
            },
    {
        proof {
            use_type_invariant(&*self);
        }
        if level >= 1 && (level <= self.max_lod_level || level == 1) {
            let min_dimension = Self::pow2_exec(level - 1);
            proof {
                lemma_pow2_of_is_pow2((level - 1) as nat);
                if level <= self.max_lod_level {
                    lemma_pow2_of_mono((level - 1) as nat, self.max_lod_level as nat);
                }
            }
            let mut root = Box::new(Node::<V>::new(Vector3::new(0, 0, 0), self.dimension));
            core::mem::swap(&mut root, &mut self.root);
            *self = Octree {
                auto_simplify: self.auto_simplify,
                dimension: self.dimension,
                curr_lod_level: level,
                max_lod_level: self.max_lod_level,
                min_dimension,
                root,
            };
            Ok(())
        } else {
            Err(Error::InvalidDimension(level))
        }
    }

    /// Flattens the tree into its snapshot record list: the breadth-first,
    /// index-linked encoding of the root node.
    pub fn serialize(&self) -> (out: Vec<FlatNode<V>>)
        ensures
            out@ == spec_flatten(self.spec_root()),
    {
        proof {
            use_type_invariant(&*self);
        }
        self.root.serialize()
    }

    /// Replaces the tree with one rebuilt from a snapshot record list.
    ///
    /// The list must be a well-formed snapshot — its records may sit in any
    /// order — whose described tree is well-formed and covers this octree's
    /// own domain; any other list is refused as malformed, leaving the tree
    /// untouched.
    pub fn deserialize(&mut self, all_nodes: Vec<FlatNode<V>>) -> (r: Result<(), Error>)
        ensures
            final(self).spec_dimension() == old(self).spec_dimension(),
            final(self).spec_min_dimension() == old(self).spec_min_dimension(),
            final(self).spec_curr_lod_level() == old(self).spec_curr_lod_level(),
            final(self).spec_max_lod_level() == old(self).spec_max_lod_level(),
            final(self).spec_auto_simplify() == old(self).spec_auto_simplify(),
            match r {
                Ok(()) => {
                    &&& snapshot_wf(all_nodes@)
                    &&& tree_matches(all_nodes@, 0, final(self).spec_root())
                    &&& final(self).spec_root().wf()
                    &&& final(self).spec_root().dimension == old(self).spec_dimension()
                    &&& final(self).spec_root().min_position == Self::spec_origin()
                },
                Err(e) => {
                    &&& *final(self) == *old(self)
                    &&& e == Error::MalformedTree
                    &&& !(snapshot_wf(all_nodes@) && (exists|t: Node<V>|
                        tree_matches(all_nodes@, 0, t) && t.wf() && t.dimension == old(
                            self,
                        ).spec_dimension() && t.min_position == Self::spec_origin()))
                },
            },
    {
        proof {
            use_type_invariant(&*self);
        }
        let ghost snap = all_nodes@;
        match Node::<V>::deserialize(all_nodes) {
            Ok(t) => {
                if t.check_wf() && t.dimension() == self.dimension && t.min_position.x == 0
                    && t.min_position.y == 0 && t.min_position.z == 0 {
                    self.root = Box::new(t);
                    Ok(())
                } else {
                    proof {
                        if exists|t2: Node<V>|
                            tree_matches(snap, 0, t2) && t2.wf() && t2.dimension == old(
                                self,
                            ).spec_dimension() && t2.min_position == Self::spec_origin() {
                            let t2 = choose|t2: Node<V>|
                                tree_matches(snap, 0, t2) && t2.wf() && t2.dimension == old(
                                    self,
                                ).spec_dimension() && t2.min_position == Self::spec_origin();
                            lemma_tree_matches_unique(snap, 0, t, t2);
                            assert(false);
                        }
                    }
                    Err(Error::MalformedTree)
                }
            },
            Err(e) => Err(e),
        }
    }

    /// The side length of the smallest region a point operation may write.
    pub fn min_dimension(&self) -> (r: u32)
        ensures
            r == self.spec_min_dimension(),
    {
        self.min_dimension
    }

    /// The current level of detail, 1 at the finest.
    pub fn curr_lod_level(&self) -> (r: u32)
        ensures
            r == self.spec_curr_lod_level(),
    {
        self.curr_lod_level
    }

    /// The coarsest level of detail.
    pub fn max_lod_level(&self) -> (r: u32)
        ensures
            r == self.spec_max_lod_level(),
    {
        self.max_lod_level
    }

    /// Whether mutating operations simplify on their way back up.
    pub fn auto_simplify(&self) -> (r: bool)
        ensures
            r == self.spec_auto_simplify(),
    {
        self.auto_simplify
    }

    /// Switches automatic simplification on or off.
    pub fn set_auto_simplify(&mut self, on: bool)
        ensures
            final(self).spec_auto_simplify() == on,
            final(self).spec_dimension() == old(self).spec_dimension(),
            final(self).spec_min_dimension() == old(self).spec_min_dimension(),
            final(self).spec_curr_lod_level() == old(self).spec_curr_lod_level(),
            final(self).spec_max_lod_level() == old(self).spec_max_lod_level(),
            final(self).spec_root() == old(self).spec_root(),
    {
        proof {
            use_type_invariant(&*self);
        }
        self.auto_simplify = on;
    }
}

} // verus!
