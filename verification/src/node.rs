use vstd::prelude::*;

use crate::error::Error;
use crate::octant::Octant;
use crate::vector::Vector3;

verus! {

/// The contract a stored value type must meet: it is plainly copyable, it
/// supplies the explicit default that cleared regions fall back to, and its
/// equality test agrees with logical equality.
pub trait LeafValue: Sized + Copy {
    /// The default value, as a specification-level constant.
    spec fn default_spec() -> Self;

    /// Produces the default value.
    fn default_value() -> (r: Self)
        ensures
            r == Self::default_spec(),
    ;

    /// Decides equality of two values.
    fn eq_value(&self, other: &Self) -> (r: bool)
        ensures
            r == (*self == *other),
    ;
}

impl LeafValue for u8 {
    open spec fn default_spec() -> u8 {
        0u8
    }

    fn default_value() -> (r: u8) {
        0u8
    }

    fn eq_value(&self, other: &u8) -> (r: bool) {
        *self == *other
    }
}

impl LeafValue for u32 {
    open spec fn default_spec() -> u32 {
        0u32
    }

    fn default_value() -> (r: u32) {
        0u32
    }

    fn eq_value(&self, other: &u32) -> (r: bool) {
        *self == *other
    }
}

impl LeafValue for u64 {
    open spec fn default_spec() -> u64 {
        0u64
    }

    fn default_value() -> (r: u64) {
        0u64
    }

    fn eq_value(&self, other: &u64) -> (r: bool) {
        *self == *other
    }
}

/// The tag of a node: a leaf representing its whole region as one value, or
/// an internal node subdivided among its children.
#[derive(Debug, Clone, Copy)]
pub enum NodeType<V> {
    Leaf(V),
    Internal,
}

/// Whether `n` is a power of two. Zero and negative numbers are not.
pub open spec fn is_pow2(n: int) -> bool
    decreases n,
{
    if n <= 0 {
        false
    } else if n == 1 {
        true
    } else {
        n % 2 == 0 && is_pow2(n / 2)
    }
}

/// Decides whether `d` is a power of two.
pub fn is_pow2_exec(d: u32) -> (r: bool)
    ensures
        r == is_pow2(d as int),
{
    if d == 0 {
        return false;
    }
    let mut x: u32 = d;
    while x > 1
        invariant
            1 <= x <= d,
            is_pow2(d as int) <==> is_pow2(x as int),
        decreases x,
    {
        if x % 2 != 0 {
            return false;
        }
        x = x / 2;
    }
    true
}

/// A power of two that is at most another power of two divides it, and when
/// the two differ, doubling the smaller still does not pass the larger.
pub proof fn lemma_pow2_le_divides(a: int, b: int)
    requires
        is_pow2(a),
        is_pow2(b),
        a <= b,
    ensures
        b % a == 0,
        a == b || 2 * a <= b,
    decreases b,
{
    if a == b {
        assert(b % a == 0) by (nonlinear_arith)
            requires
                a == b && a > 0,
        ;
    } else if a == 1 {
        assert(b != 1);
        assert(b % 2 == 0);
        assert(b % 1 == 0) by (nonlinear_arith)
            requires
                b > 0,
        ;
    } else {
        assert(a != 1 && a > 0 && a % 2 == 0);
        assert(b != 1 && b > 0 && b % 2 == 0);
        assert(a == 2 * (a / 2));
        assert(b == 2 * (b / 2));
        lemma_pow2_le_divides(a / 2, b / 2);
        if a / 2 == b / 2 {
            assert(false);
        }
        assert(2 * (a / 2) <= b / 2);
        assert(2 * a <= b);
        let k = (b / 2) / (a / 2);
        vstd::arithmetic::div_mod::lemma_fundamental_div_mod(b / 2, a / 2);
        assert(b / 2 == (a / 2) * k);
        assert(b == k * a) by (nonlinear_arith)
            requires
                b == 2 * (b / 2) && a == 2 * (a / 2) && b / 2 == (a / 2) * k,
        ;
        vstd::arithmetic::div_mod::lemma_mod_multiples_basic(k, a);
    }
}

/// A point of a region of even side length at least 2 falls inside the child
/// region named by its octant, and that child region stays inside the
/// coordinate space.
pub proof fn lemma_octant_split(min: Vector3, dim: u32, p: Vector3)
    requires
        dim >= 2,
        dim % 2 == 0,
        in_region(min, dim, p),
        min.x + dim <= 0x1_0000_0000,
        min.y + dim <= 0x1_0000_0000,
        min.z + dim <= 0x1_0000_0000,
    ensures
        ({
            let k = Octant::spec_octant_of(spec_midpoint(min, dim), p).idx();
            let half = (dim / 2) as u32;
            let cmin = spec_child_min(min, half, k);
            &&& 0 <= k < 8
            &&& cmin.x + half <= 0x1_0000_0000
            &&& cmin.y + half <= 0x1_0000_0000
            &&& cmin.z + half <= 0x1_0000_0000
            &&& in_region(cmin, half, p)
        }),
{
    let mid = spec_midpoint(min, dim);
    let xb: int = if p.x < mid.x { 0 } else { 1 };
    let yb: int = if p.y < mid.y { 0 } else { 2 };
    let zb: int = if p.z < mid.z { 0 } else { 4 };
    let s = xb + yb + zb;
    assert(0 <= s < 8);
    assert(Octant::spec_from_index(s).idx() == s);
    let k = Octant::spec_octant_of(mid, p).idx();
    assert(k == s);
    let half = (dim / 2) as u32;
    assert(dim == 2 * half);
    assert(k % 2 == (if p.x < mid.x { 0int } else { 1int }));
    assert((k / 2) % 2 == (if p.y < mid.y { 0int } else { 1int }));
    assert(k / 4 == (if p.z < mid.z { 0int } else { 1int }));
    let cmin = spec_child_min(min, half, k);
    assert(half >= 1);
    assert(mid.x == min.x + half && mid.y == min.y + half && mid.z == min.z + half);
    if p.x < mid.x {
        assert(half * (k % 2) == 0) by (nonlinear_arith)
            requires
                k % 2 == 0,
        ;
        assert(cmin.x == min.x);
    } else {
        assert(half * (k % 2) == half) by (nonlinear_arith)
            requires
                k % 2 == 1 && half >= 0,
        ;
        assert(cmin.x == min.x + half);
    }
    if p.y < mid.y {
        assert(half * ((k / 2) % 2) == 0) by (nonlinear_arith)
            requires
                (k / 2) % 2 == 0,
        ;
        assert(cmin.y == min.y);
    } else {
        assert(half * ((k / 2) % 2) == half) by (nonlinear_arith)
            requires
                (k / 2) % 2 == 1 && half >= 0,
        ;
        assert(cmin.y == min.y + half);
    }
    if p.z < mid.z {
        assert(half * (k / 4) == 0) by (nonlinear_arith)
            requires
                k / 4 == 0,
        ;
        assert(cmin.z == min.z);
    } else {
        assert(half * (k / 4) == half) by (nonlinear_arith)
            requires
                k / 4 == 1 && half >= 0,
        ;
        assert(cmin.z == min.z + half);
    }
    assert(in_region(cmin, half, p));
}

/// Two raised to the power `e`.
pub open spec fn pow2_of(e: nat) -> int
    decreases e,
{
    if e == 0 {
        1
    } else {
        2 * pow2_of((e - 1) as nat)
    }
}

/// Powers of two are positive, and the function is monotone in the exponent.
pub proof fn lemma_pow2_of_mono(a: nat, b: nat)
    requires
        a <= b,
    ensures
        1 <= pow2_of(a) <= pow2_of(b),
    decreases b,
{
    if b == 0 {
    } else if a == b {
        lemma_pow2_of_mono((a - 1) as nat, (b - 1) as nat);
    } else {
        lemma_pow2_of_mono(a, (b - 1) as nat);
    }
}

/// Every power of two with a non-negative exponent satisfies `is_pow2`.
pub proof fn lemma_pow2_of_is_pow2(e: nat)
    ensures
        is_pow2(pow2_of(e)),
    decreases e,
{
    if e == 0 {
    } else {
        lemma_pow2_of_is_pow2((e - 1) as nat);
        lemma_pow2_of_mono(0, (e - 1) as nat);
    }
}

/// The value of two to the thirty-second.
pub proof fn lemma_pow2_of_32()
    ensures
        pow2_of(32) == 0x1_0000_0000,
{
    reveal_with_fuel(pow2_of, 33);
}

/// Whether point `p` lies in the half-open cubic region at `min` with side
/// length `dim`.
pub open spec fn in_region(min: Vector3, dim: u32, p: Vector3) -> bool {
    &&& min.x <= p.x && p.x < min.x + dim
    &&& min.y <= p.y && p.y < min.y + dim
    &&& min.z <= p.z && p.z < min.z + dim
}

/// The lower corner of the child region for octant index `i` inside a region
/// at `min` whose children have side length `half`.
pub open spec fn spec_child_min(min: Vector3, half: u32, i: int) -> Vector3 {
    Vector3 {
        x: (min.x + half * (i % 2)) as u32,
        y: (min.y + half * ((i / 2) % 2)) as u32,
        z: (min.z + half * (i / 4)) as u32,
    }
}

/// The midpoint of a region: its lower corner moved by half the side length
/// on every axis.
pub open spec fn spec_midpoint(min: Vector3, dim: u32) -> Vector3 {
    Vector3 {
        x: (min.x + dim / 2) as u32,
        y: (min.y + dim / 2) as u32,
        z: (min.z + dim / 2) as u32,
    }
}

/// The content of an `Option`, when there is one.
pub open spec fn opt_value<T>(o: Option<T>) -> T {
    match o {
        Some(t) => t,
        None => vstd::pervasive::arbitrary(),
    }
}

/// How many entries of `s` equal `v`.
pub open spec fn spec_count_val<T>(s: Seq<T>, v: T) -> int
    decreases s.len(),
{
    if s.len() == 0 {
        0
    } else {
        spec_count_val(s.drop_last(), v) + if s.last() == v {
            1int
        } else {
            0int
        }
    }
}

/// The index, among the first `upto` entries of `s`, of the entry whose value
/// occurs most often in all of `s`; ties go to the lowest index.
pub open spec fn spec_best_idx<T>(s: Seq<T>, upto: int) -> int
    decreases upto,
{
    if upto <= 1 {
        0
    } else {
        let b = spec_best_idx(s, upto - 1);
        if spec_count_val(s, s[upto - 1]) > spec_count_val(s, s[b]) {
            upto - 1
        } else {
            b
        }
    }
}

/// The most frequent value of `s`; among equally frequent values, the one at
/// the lowest index wins.
pub open spec fn spec_majority_value<T>(s: Seq<T>) -> T
    recommends
        s.len() > 0,
{
    s[spec_best_idx(s, s.len() as int)]
}

/// A node of the octree: a cubic region of power-of-two side length, tagged
/// either as a leaf holding one value for every point of the region or as an
/// internal node, with one optional exclusively-owned child per octant.
pub struct Node<V: LeafValue> {
    pub ty: NodeType<V>,
    pub min_position: Vector3,
    pub dimension: u32,
    pub c0: Option<Box<Node<V>>>,
    pub c1: Option<Box<Node<V>>>,
    pub c2: Option<Box<Node<V>>>,
    pub c3: Option<Box<Node<V>>>,
    pub c4: Option<Box<Node<V>>>,
    pub c5: Option<Box<Node<V>>>,
    pub c6: Option<Box<Node<V>>>,
    pub c7: Option<Box<Node<V>>>,
}

/// The geometry of one subdivision step: the side length of a child, that
/// length on all three axes, and the destination octant of a point.
pub struct ChildInfo {
    pub dimension: u32,
    pub dimension_3d: Vector3,
    pub octant: Octant,
}

impl<V: LeafValue> Node<V> {
    /// The child slot at octant index `i`.
    pub open spec fn child(self, i: int) -> Option<Box<Node<V>>> {
        if i == 0 {
            self.c0
        } else if i == 1 {
            self.c1
        } else if i == 2 {
            self.c2
        } else if i == 3 {
            self.c3
        } else if i == 4 {
            self.c4
        } else if i == 5 {
            self.c5
        } else if i == 6 {
            self.c6
        } else {
            self.c7
        }
    }

    /// This node with the child slot at octant index `i` replaced.
    pub open spec fn with_child(self, i: int, c: Option<Box<Node<V>>>) -> Node<V> {
        if i == 0 {
            Node { c0: c, ..self }
        } else if i == 1 {
            Node { c1: c, ..self }
        } else if i == 2 {
            Node { c2: c, ..self }
        } else if i == 3 {
            Node { c3: c, ..self }
        } else if i == 4 {
            Node { c4: c, ..self }
        } else if i == 5 {
            Node { c5: c, ..self }
        } else if i == 6 {
            Node { c6: c, ..self }
        } else {
            Node { c7: c, ..self }
        }
    }

    /// A leaf node covering the region at `min` with side length `dim` and
    /// holding `v`, with no children.
    pub open spec fn spec_leaf(min: Vector3, dim: u32, v: V) -> Node<V> {
        Node {
            ty: NodeType::Leaf(v),
            min_position: min,
            dimension: dim,
            c0: None,
            c1: None,
            c2: None,
            c3: None,
            c4: None,
            c5: None,
            c6: None,
            c7: None,
        }
    }

    /// This node with every child slot emptied.
    pub open spec fn spec_drop_children(self) -> Node<V> {
        Node {
            c0: None,
            c1: None,
            c2: None,
            c3: None,
            c4: None,
            c5: None,
            c6: None,
            c7: None,
            ..self
        }
    }

    /// Well-formedness of a node: its side length is a power of two, its
    /// region stays within the coordinate space, and every child covers
    /// exactly the octant of half side length that its slot names.
    pub open spec fn wf(self) -> bool
        decreases self,
    {
        &&& self.dimension >= 1
        &&& is_pow2(self.dimension as int)
        &&& self.min_position.x + self.dimension <= 0x1_0000_0000
        &&& self.min_position.y + self.dimension <= 0x1_0000_0000
        &&& self.min_position.z + self.dimension <= 0x1_0000_0000
        &&& forall|i: int|
            0 <= i < 8 ==> match #[trigger] self.child(i) {
                Some(c) => {
                    &&& c.dimension == self.dimension / 2
                    &&& c.min_position == spec_child_min(
                        self.min_position,
                        self.dimension / 2,
                        i,
                    )
                    &&& c.wf()
                },
                None => true,
            }
    }

    /// The value stored at point `p`, read through this node: a leaf answers
    /// for its whole region; an internal node defers to the child owning the
    /// point's octant; a missing child or a point outside the region has no
    /// value.
    pub open spec fn lookup(self, p: Vector3) -> Option<V>
        decreases self,
    {
        if !in_region(self.min_position, self.dimension, p) {
            None
        } else {
            match self.ty {
                NodeType::Leaf(v) => Some(v),
                NodeType::Internal => {
                    match self.child(
                        Octant::spec_octant_of(
                            spec_midpoint(self.min_position, self.dimension),
                            p,
                        ).idx(),
                    ) {
                        Some(c) => c.lookup(p),
                        None => None,
                    }
                },
            }
        }
    }

    /// Creates a new leaf `Node` with the given bounds, holding the default
    /// value.
    pub fn new(min_position: Vector3, dimension: u32) -> (r: Self)
        ensures
            r == Node::spec_leaf(min_position, dimension, V::default_spec()),
    {
        Node {
            ty: NodeType::Leaf(V::default_value()),
            min_position,
            dimension,
            c0: None,
            c1: None,
            c2: None,
            c3: None,
            c4: None,
            c5: None,
            c6: None,
            c7: None,
        }
    }

    /// Returns the dimension of the `Node`.
    pub fn dimension(&self) -> (r: u32)
        ensures
            r == self.dimension,
    {
        self.dimension
    }

    /// Returns whether the `Node` contains the given position.
    pub fn contains(&self, position: Vector3) -> (r: bool)
        ensures
            r == in_region(self.min_position, self.dimension, position),
    {
        position.x >= self.min_position.x && position.x - self.min_position.x < self.dimension
            && position.y >= self.min_position.y && position.y - self.min_position.y
            < self.dimension && position.z >= self.min_position.z && position.z
            - self.min_position.z < self.dimension
    }

    /// Whether this node is a leaf.
    pub fn is_leaf(&self) -> (r: bool)
        ensures
            r == (self.ty is Leaf),
    {
        match self.ty {
            NodeType::Leaf(_) => true,
            NodeType::Internal => false,
        }
    }

    /// The value a leaf represents, as a specification.
    pub open spec fn spec_leaf_data(self) -> Option<V> {
        match self.ty {
            NodeType::Leaf(v) => Some(v),
            NodeType::Internal => None,
        }
    }

    /// Get leaf data from this `Node`.
    pub fn leaf_data(&self) -> (r: Option<V>)
        ensures
            r == self.spec_leaf_data(),
    {
        match self.ty {
            NodeType::Leaf(data) => Some(data),
            NodeType::Internal => None,
        }
    }

    /// A shared reference to the child slot at index `i`.
    pub fn child_ref(&self, i: usize) -> (r: &Option<Box<Node<V>>>)
        requires
            i < 8,
        ensures
            *r == self.child(i as int),
    {
        match i {
            0 => &self.c0,
            1 => &self.c1,
            2 => &self.c2,
            3 => &self.c3,
            4 => &self.c4,
            5 => &self.c5,
            6 => &self.c6,
            _ => &self.c7,
        }
    }

    /// Replaces the child slot at index `i`, returning its prior content.
    pub fn take_child(&mut self, i: usize) -> (r: Option<Box<Node<V>>>)
        requires
            i < 8,
        ensures
            r == old(self).child(i as int),
            *final(self) == old(self).with_child(i as int, None),
    {
        match i {
            0 => self.c0.take(),
            1 => self.c1.take(),
            2 => self.c2.take(),
            3 => self.c3.take(),
            4 => self.c4.take(),
            5 => self.c5.take(),
            6 => self.c6.take(),
            _ => self.c7.take(),
        }
    }

    /// Stores `c` into the child slot at index `i`.
    pub fn set_child(&mut self, i: usize, c: Option<Box<Node<V>>>)
        requires
            i < 8,
        ensures
            *final(self) == old(self).with_child(i as int, c),
    {
        match i {
            0 => {
                self.c0 = c;
            },
            1 => {
                self.c1 = c;
            },
            2 => {
                self.c2 = c;
            },
            3 => {
                self.c3 = c;
            },
            4 => {
                self.c4 = c;
            },
            5 => {
                self.c5 = c;
            },
            6 => {
                self.c6 = c;
            },
            _ => {
                self.c7 = c;
            },
        }
    }

    /// The number of occupied child slots.
    pub open spec fn spec_child_count(self) -> int {
        (if self.c0 is Some { 1int } else { 0int }) + (if self.c1 is Some { 1int } else { 0int })
            + (if self.c2 is Some { 1int } else { 0int }) + (if self.c3 is Some {
            1int
        } else {
            0int
        }) + (if self.c4 is Some { 1int } else { 0int }) + (if self.c5 is Some {
            1int
        } else {
            0int
        }) + (if self.c6 is Some { 1int } else { 0int }) + (if self.c7 is Some {
            1int
        } else {
            0int
        })
    }

    /// Counts the occupied child slots.
    pub fn child_count(&self) -> (r: usize)
        ensures
            r == self.spec_child_count(),
    {
        let mut count: usize = 0;
        if self.c0.is_some() {
            count += 1;
        }
        if self.c1.is_some() {
            count += 1;
        }
        if self.c2.is_some() {
            count += 1;
        }
        if self.c3.is_some() {
            count += 1;
        }
        if self.c4.is_some() {
            count += 1;
        }
        if self.c5.is_some() {
            count += 1;
        }
        if self.c6.is_some() {
            count += 1;
        }
        if self.c7.is_some() {
            count += 1;
        }
        count
    }

    /// For a position inside this node, the geometry of the subdivision step:
    /// the child side length, that length as a vector, and the octant the
    /// position falls into. `None` for a position outside the node.
    pub fn child_info(&self, position: Vector3) -> (r: Option<ChildInfo>)
        requires
            self.min_position.x + self.dimension <= 0x1_0000_0000,
            self.min_position.y + self.dimension <= 0x1_0000_0000,
            self.min_position.z + self.dimension <= 0x1_0000_0000,
            self.dimension >= 1,
        ensures
            match r {
                Some(ci) => {
                    &&& in_region(self.min_position, self.dimension, position)
                    &&& ci.dimension == self.dimension / 2
                    &&& ci.dimension_3d == (Vector3 {
                        x: self.dimension / 2,
                        y: self.dimension / 2,
                        z: self.dimension / 2,
                    })
                    &&& ci.octant == Octant::spec_octant_of(
                        spec_midpoint(self.min_position, self.dimension),
                        position,
                    )
                },
                None => !in_region(self.min_position, self.dimension, position),
            },
    {
        if self.contains(position) {
            let dimension = self.dimension / 2;
            let dimension_3d = Vector3 { x: dimension, y: dimension, z: dimension };
            let midpoint = self.min_position.plus(dimension_3d);
            let octant = Octant::vector_diff(midpoint, position);
            Some(ChildInfo { dimension, dimension_3d, octant })
        } else {
            None
        }
    }

    /// The lower corner of the child region for `octant`, given the child
    /// side length on all three axes.
    pub fn child_min_position(&self, dimension_3d: Vector3, octant: Octant) -> (r: Vector3)
        requires
            self.min_position.x + dimension_3d.x <= u32::MAX,
            self.min_position.y + dimension_3d.y <= u32::MAX,
            self.min_position.z + dimension_3d.z <= u32::MAX,
        ensures
            r.x == self.min_position.x + dimension_3d.x * (octant.idx() % 2),
            r.y == self.min_position.y + dimension_3d.y * ((octant.idx() / 2) % 2),
            r.z == self.min_position.z + dimension_3d.z * (octant.idx() / 4),
    {
        proof {
            octant.lemma_offset_bits();
            let off = octant.spec_offset();
            assert(0 <= off.x <= 1 && 0 <= off.y <= 1 && 0 <= off.z <= 1);
            assert(dimension_3d.x * off.x <= dimension_3d.x) by (nonlinear_arith)
                requires
                    0 <= off.x <= 1 && dimension_3d.x >= 0,
            ;
            assert(dimension_3d.y * off.y <= dimension_3d.y) by (nonlinear_arith)
                requires
                    0 <= off.y <= 1 && dimension_3d.y >= 0,
            ;
            assert(dimension_3d.z * off.z <= dimension_3d.z) by (nonlinear_arith)
                requires
                    0 <= off.z <= 1 && dimension_3d.z >= 0,
            ;
        }
        self.min_position.plus(dimension_3d.component_mul(&octant.offset()))
    }

    /// The value of the child at octant index `i`, when that child exists
    /// and is a leaf.
    pub open spec fn spec_child_leaf_value(self, i: int) -> Option<V> {
        match self.child(i) {
            Some(c) => c.spec_leaf_data(),
            None => None,
        }
    }

    /// Executable form of [`Node::spec_child_leaf_value`].
    pub fn child_leaf_value(&self, i: usize) -> (r: Option<V>)
        requires
            i < 8,
        ensures
            r == self.spec_child_leaf_value(i as int),
    {
        match self.child_ref(i) {
            Some(c) => c.leaf_data(),
            None => None,
        }
    }

    /// The single value carried by all eight children, when every child slot
    /// is occupied by a leaf and all eight leaves agree; `None` otherwise.
    pub open spec fn spec_uniform_value(self) -> Option<V> {
        match self.spec_child_leaf_value(0) {
            Some(v) => {
                if forall|i: int| 0 <= i < 8 ==> self.spec_child_leaf_value(i) == Some(v) {
                    Some(v)
                } else {
                    None
                }
            },
            None => None,
        }
    }

    /// What one simplification step does: a node whose eight children are
    /// leaves carrying one common value becomes a leaf with that value and
    /// drops every child; any other node is left unchanged. The flag tells
    /// whether the node changed.
    pub open spec fn spec_simplify(n: Node<V>) -> (Node<V>, bool) {
        match n.spec_uniform_value() {
            Some(v) => ((Node { ty: NodeType::Leaf(v), ..n }).spec_drop_children(), true),
            None => (n, false),
        }
    }

    /// Simplifies the `Node`.
    ///
    /// If all children are leaf `Node`s with identical data, destroy all
    /// children, and mark the `Node` as a leaf containing that data.
    pub fn simplify(&mut self) -> (r: bool)
        ensures
            *final(self) == Node::spec_simplify(*old(self)).0,
            r == Node::spec_simplify(*old(self)).1,
    {
        let v0 = self.child_leaf_value(0);
        let w = match v0 {
            Some(w) => w,
            None => {
                return false;
            },
        };
        let mut i: usize = 1;
        while i < 8
            invariant
                1 <= i <= 8,
                *self == *old(self),
                self.spec_child_leaf_value(0) == Some(w),
                forall|j: int| 0 <= j < i ==> self.spec_child_leaf_value(j) == Some(w),
            decreases 8 - i,
        {
            match self.child_leaf_value(i) {
                Some(wi) => {
                    if !w.eq_value(&wi) {
                        proof {
                            assert(self.spec_child_leaf_value(i as int) != Some(w));
                        }
                        return false;
                    }
                },
                None => {
                    proof {
                        assert(self.spec_child_leaf_value(i as int) != Some(w));
                    }
                    return false;
                },
            }
            i += 1;
        }
        self.ty = NodeType::Leaf(w);
        self.c0 = None;
        self.c1 = None;
        self.c2 = None;
        self.c3 = None;
        self.c4 = None;
        self.c5 = None;
        self.c6 = None;
        self.c7 = None;
        true
    }

    /// What recursion does to one child slot before the parent itself is
    /// simplified: an empty slot stays empty and does not count; a leaf child
    /// stays as it is and counts; an internal child is recursively
    /// simplified and counts exactly when that recursion reports success.
    pub open spec fn spec_srec_child(c: Option<Box<Node<V>>>) -> (Option<Box<Node<V>>>, bool)
        decreases c,
    {
        match c {
            None => (None, false),
            Some(b) => {
                match b.ty {
                    NodeType::Leaf(_) => (Some(b), true),
                    NodeType::Internal => {
                        let (n2, flag) = Node::spec_simplify_rec(*b);
                        (Some(Box::new(n2)), flag)
                    },
                }
            },
        }
    }

    /// The lowest child slot that is empty, or 8 when none is.
    pub open spec fn spec_first_absent(self) -> int {
        if self.c0 is None {
            0
        } else if self.c1 is None {
            1
        } else if self.c2 is None {
            2
        } else if self.c3 is None {
            3
        } else if self.c4 is None {
            4
        } else if self.c5 is None {
            5
        } else if self.c6 is None {
            6
        } else if self.c7 is None {
            7
        } else {
            8
        }
    }

    /// What recursive simplification does: child slots are visited in index
    /// order, internal children being simplified depth-first; the visit stops
    /// at the first empty slot, reporting failure and leaving later slots
    /// untouched. When every slot is occupied and every child counted as a
    /// leaf, the node itself is simplified.
    pub open spec fn spec_simplify_rec(n: Node<V>) -> (Node<V>, bool)
        decreases n,
    {
        let k = n.spec_first_absent();
        let processed = Node {
            c0: if 0 < k { Node::spec_srec_child(n.c0).0 } else { n.c0 },
            c1: if 1 < k { Node::spec_srec_child(n.c1).0 } else { n.c1 },
            c2: if 2 < k { Node::spec_srec_child(n.c2).0 } else { n.c2 },
            c3: if 3 < k { Node::spec_srec_child(n.c3).0 } else { n.c3 },
            c4: if 4 < k { Node::spec_srec_child(n.c4).0 } else { n.c4 },
            c5: if 5 < k { Node::spec_srec_child(n.c5).0 } else { n.c5 },
            c6: if 6 < k { Node::spec_srec_child(n.c6).0 } else { n.c6 },
            c7: if 7 < k { Node::spec_srec_child(n.c7).0 } else { n.c7 },
            ..n
        };
        if k < 8 {
            (processed, false)
        } else if Node::spec_srec_child(n.c0).1 && Node::spec_srec_child(n.c1).1
            && Node::spec_srec_child(n.c2).1 && Node::spec_srec_child(n.c3).1
            && Node::spec_srec_child(n.c4).1 && Node::spec_srec_child(n.c5).1
            && Node::spec_srec_child(n.c6).1 && Node::spec_srec_child(n.c7).1 {
            Node::spec_simplify(processed)
        } else {
            (processed, false)
        }
    }

    /// Runs [`Node::spec_srec_child`] on one child slot.
    fn srec_child_exec(c: &mut Option<Box<Node<V>>>) -> (r: bool)
        ensures
            *final(c) == Node::spec_srec_child(*old(c)).0,
            r == Node::spec_srec_child(*old(c)).1,
        decreases *old(c),
    {
        match c.take() {
            None => false,
            Some(mut boxed) => {
                let flag = if boxed.is_leaf() {
                    true
                } else {
                    boxed.simplify_recursive()
                };
                *c = Some(boxed);
                flag
            },
        }
    }

    /// Simplifies node and children recursively.
    pub fn simplify_recursive(&mut self) -> (r: bool)
        ensures
            *final(self) == Node::spec_simplify_rec(*old(self)).0,
            r == Node::spec_simplify_rec(*old(self)).1,
        decreases *old(self),
    {
        if self.c0.is_none() {
            return false;
        }
        let f0 = Self::srec_child_exec(&mut self.c0);
        if self.c1.is_none() {
            return false;
        }
        let f1 = Self::srec_child_exec(&mut self.c1);
        if self.c2.is_none() {
            return false;
        }
        let f2 = Self::srec_child_exec(&mut self.c2);
        if self.c3.is_none() {
            return false;
        }
        let f3 = Self::srec_child_exec(&mut self.c3);
        if self.c4.is_none() {
            return false;
        }
        let f4 = Self::srec_child_exec(&mut self.c4);
        if self.c5.is_none() {
            return false;
        }
        let f5 = Self::srec_child_exec(&mut self.c5);
        if self.c6.is_none() {
            return false;
        }
        let f6 = Self::srec_child_exec(&mut self.c6);
        if self.c7.is_none() {
            return false;
        }
        let f7 = Self::srec_child_exec(&mut self.c7);
        if f0 && f1 && f2 && f3 && f4 && f5 && f6 && f7 {
            self.simplify()
        } else {
            false
        }
    }

    /// This node with every child slot except `keep` overwritten by a fresh
    /// leaf child of side length `half` carrying `w`: the step that preserves
    /// a leaf's uniform data before its region is fragmented.
    pub open spec fn spec_materialized(n: Node<V>, half: u32, keep: int, w: V) -> Node<V> {
        Node {
            c0: if keep == 0 {
                n.c0
            } else {
                Some(Box::new(Node::spec_leaf(spec_child_min(n.min_position, half, 0), half, w)))
            },
            c1: if keep == 1 {
                n.c1
            } else {
                Some(Box::new(Node::spec_leaf(spec_child_min(n.min_position, half, 1), half, w)))
            },
            c2: if keep == 2 {
                n.c2
            } else {
                Some(Box::new(Node::spec_leaf(spec_child_min(n.min_position, half, 2), half, w)))
            },
            c3: if keep == 3 {
                n.c3
            } else {
                Some(Box::new(Node::spec_leaf(spec_child_min(n.min_position, half, 3), half, w)))
            },
            c4: if keep == 4 {
                n.c4
            } else {
                Some(Box::new(Node::spec_leaf(spec_child_min(n.min_position, half, 4), half, w)))
            },
            c5: if keep == 5 {
                n.c5
            } else {
                Some(Box::new(Node::spec_leaf(spec_child_min(n.min_position, half, 5), half, w)))
            },
            c6: if keep == 6 {
                n.c6
            } else {
                Some(Box::new(Node::spec_leaf(spec_child_min(n.min_position, half, 6), half, w)))
            },
            c7: if keep == 7 {
                n.c7
            } else {
                Some(Box::new(Node::spec_leaf(spec_child_min(n.min_position, half, 7), half, w)))
            },
            ..n
        }
    }

    /// What insertion does. At the configured minimum side length the node
    /// becomes a leaf holding the new value. Above it, when the node is a
    /// leaf about to be fragmented at the last level of subdivision, the
    /// seven other octants are first materialized as leaves carrying the
    /// node's current value; the insertion then descends into the destination
    /// octant, reusing the child there or creating a fresh default leaf, the
    /// node is marked internal, and, on request, simplified.
    pub open spec fn spec_insert(n: Node<V>, p: Vector3, m: u32, do_simplify: bool, v: V) -> Node<
        V,
    >
        decreases n.dimension,
    {
        if n.dimension == m {
            Node { ty: NodeType::Leaf(v), ..n }
        } else if n.dimension < 1 {
            n
        } else {
            let half = (n.dimension / 2) as u32;
            let oct = Octant::spec_octant_of(spec_midpoint(n.min_position, n.dimension), p).idx();
            let base = if half == m {
                match n.ty {
                    NodeType::Leaf(w) => Node::spec_materialized(n, half, oct, w),
                    NodeType::Internal => n,
                }
            } else {
                n
            };
            let stepped = match base.child(oct) {
                Some(c) => {
                    if c.dimension < n.dimension {
                        base.with_child(
                            oct,
                            Some(Box::new(Node::spec_insert(*c, p, m, do_simplify, v))),
                        )
                    } else {
                        base
                    }
                },
                None => {
                    let fresh = Node::spec_leaf(
                        spec_child_min(n.min_position, half, oct),
                        half,
                        V::default_spec(),
                    );
                    base.with_child(
                        oct,
                        Some(Box::new(Node::spec_insert(fresh, p, m, do_simplify, v))),
                    )
                },
            };
            let marked = Node { ty: NodeType::Internal, ..stepped };
            if do_simplify {
                Node::spec_simplify(marked).0
            } else {
                marked
            }
        }
    }

    /// Builds a childless leaf node.
    fn leaf_node(min_position: Vector3, dimension: u32, v: V) -> (r: Node<V>)
        ensures
            r == Node::spec_leaf(min_position, dimension, v),
    {
        Node {
            ty: NodeType::Leaf(v),
            min_position,
            dimension,
            c0: None,
            c1: None,
            c2: None,
            c3: None,
            c4: None,
            c5: None,
            c6: None,
            c7: None,
        }
    }

    /// Inserts a new leaf `Node` at the given position, if possible.
    #[verifier::rlimit(100)]
    #[verifier::spinoff_prover]
    pub fn insert(
        &mut self,
        position: Vector3,
        min_dimension: u32,
        do_simplify: bool,
        data: V,
    ) -> (r: Result<(), Error>)
        requires
            old(self).wf(),
            min_dimension >= 1,
            is_pow2(min_dimension as int),
            min_dimension <= old(self).dimension,
        ensures
            final(self).wf(),
            final(self).dimension == old(self).dimension,
            final(self).min_position == old(self).min_position,
            match r {
                Ok(()) => {
                    &&& in_region(old(self).min_position, old(self).dimension, position)
                    &&& *final(self) == Node::spec_insert(
                        *old(self),
                        position,
                        min_dimension,
                        do_simplify,
                        data,
                    )
                },
                Err(e) => {
                    &&& !in_region(old(self).min_position, old(self).dimension, position)
                    &&& *final(self) == *old(self)
                    &&& e == (Error::InvalidPosition {
                        x: position.x,
                        y: position.y,
                        z: position.z,
                    })
                },
            },
        decreases old(self).dimension,
    {
        if !self.contains(position) {
            return Err(Error::InvalidPosition { x: position.x, y: position.y, z: position.z });
        }
        if self.dimension == min_dimension {
            self.ty = NodeType::Leaf(data);
            proof {
                Self::lemma_insert_wf(*old(self), position, min_dimension, do_simplify, data);
            }
            return Ok(());
        }
        proof {
            lemma_pow2_le_divides(min_dimension as int, self.dimension as int);
            lemma_octant_split(self.min_position, self.dimension, position);
        }
        let ci = match self.child_info(position) {
            Some(ci) => ci,
            None => {
                proof {
                    assert(false);
                }
                return Err(Error::InvalidPosition {
                    x: position.x,
                    y: position.y,
                    z: position.z,
                });
            },
        };
        let child_dimension = ci.dimension;
        let dimension_3d = ci.dimension_3d;
        let octant = ci.octant;
        let oct = octant.index();
        let ghost n0 = *self;
        let ghost octi = octant.idx();

        if child_dimension == min_dimension {
            match self.leaf_data() {
                Some(w) => {
                    if oct != 0 {
                        let cm = self.child_min_position(dimension_3d, Octant::from_index(0));
                        self.c0 = Some(Box::new(Self::leaf_node(cm, child_dimension, w)));
                    }
                    if oct != 1 {
                        let cm = self.child_min_position(dimension_3d, Octant::from_index(1));
                        self.c1 = Some(Box::new(Self::leaf_node(cm, child_dimension, w)));
                    }
                    if oct != 2 {
                        let cm = self.child_min_position(dimension_3d, Octant::from_index(2));
                        self.c2 = Some(Box::new(Self::leaf_node(cm, child_dimension, w)));
                    }
                    if oct != 3 {
                        let cm = self.child_min_position(dimension_3d, Octant::from_index(3));
                        self.c3 = Some(Box::new(Self::leaf_node(cm, child_dimension, w)));
                    }
                    if oct != 4 {
                        let cm = self.child_min_position(dimension_3d, Octant::from_index(4));
                        self.c4 = Some(Box::new(Self::leaf_node(cm, child_dimension, w)));
                    }
                    if oct != 5 {
                        let cm = self.child_min_position(dimension_3d, Octant::from_index(5));
                        self.c5 = Some(Box::new(Self::leaf_node(cm, child_dimension, w)));
                    }
                    if oct != 6 {
                        let cm = self.child_min_position(dimension_3d, Octant::from_index(6));
                        self.c6 = Some(Box::new(Self::leaf_node(cm, child_dimension, w)));
                    }
                    if oct != 7 {
                        let cm = self.child_min_position(dimension_3d, Octant::from_index(7));
                        self.c7 = Some(Box::new(Self::leaf_node(cm, child_dimension, w)));
                    }
                },
                None => {},
            }
        }
        let ghost base = if child_dimension == min_dimension {
            match n0.ty {
                NodeType::Leaf(w) => Node::spec_materialized(n0, child_dimension, octi, w),
                NodeType::Internal => n0,
            }
        } else {
            n0
        };
        assert(*self == base);

        let slot = self.take_child(oct);
        match slot {
            Some(mut boxed) => {
                let res = boxed.insert(position, min_dimension, do_simplify, data);
                proof {
                    assert(res is Ok);
                }
                self.set_child(oct, Some(boxed));
            },
            None => {
                let cm = self.child_min_position(dimension_3d, octant);
                let mut fresh = Box::new(Self::leaf_node(cm, child_dimension, V::default_value()));
                let res = fresh.insert(position, min_dimension, do_simplify, data);
                proof {
                    assert(res is Ok);
                }
                self.set_child(oct, Some(fresh));
            },
        }
        self.ty = NodeType::Internal;
        if do_simplify {
            self.simplify();
        }
        proof {
            Self::lemma_insert_wf(n0, position, min_dimension, do_simplify, data);
        }
        Ok(())
    }

    /// One simplification step keeps a node well-formed and keeps its bounds.
    pub proof fn lemma_simplify_wf(n: Node<V>)
        requires
            n.wf(),
        ensures
            Node::spec_simplify(n).0.wf(),
            Node::spec_simplify(n).0.dimension == n.dimension,
            Node::spec_simplify(n).0.min_position == n.min_position,
    {
        match n.spec_uniform_value() {
            Some(v) => {
                let r = Node::spec_simplify(n).0;
                assert(forall|i: int| 0 <= i < 8 ==> #[trigger] r.child(i) is None);
                assert(r.wf());
            },
            None => {},
        }
    }

    /// Materializing the seven sibling octants of a leaf about to be
    /// fragmented keeps the node well-formed: every slot but the kept one
    /// receives a fresh leaf of half side length at its octant's corner.
    #[verifier::rlimit(100)]
    #[verifier::spinoff_prover]
    pub proof fn lemma_materialized_wf(n: Node<V>, oct: int, w: V)
        requires
            n.wf(),
            n.dimension >= 2,
            n.dimension % 2 == 0,
        ensures
            Node::spec_materialized(n, (n.dimension / 2) as u32, oct, w).wf(),
            Node::spec_materialized(n, (n.dimension / 2) as u32, oct, w).dimension
                == n.dimension,
            Node::spec_materialized(n, (n.dimension / 2) as u32, oct, w).min_position
                == n.min_position,
    {
        assert(n.dimension >= 1 && is_pow2(n.dimension as int));
        assert(n.min_position.x + n.dimension <= 0x1_0000_0000);
        assert(n.min_position.y + n.dimension <= 0x1_0000_0000);
        assert(n.min_position.z + n.dimension <= 0x1_0000_0000);
        assert(is_pow2((n.dimension / 2) as int));
        let half = (n.dimension / 2) as u32;
        let mat = Node::spec_materialized(n, half, oct, w);
        assert(Node::spec_leaf(spec_child_min(n.min_position, half, 0), half, w).wf());
        assert(Node::spec_leaf(spec_child_min(n.min_position, half, 1), half, w).wf());
        assert(Node::spec_leaf(spec_child_min(n.min_position, half, 2), half, w).wf());
        assert(Node::spec_leaf(spec_child_min(n.min_position, half, 3), half, w).wf());
        assert(Node::spec_leaf(spec_child_min(n.min_position, half, 4), half, w).wf());
        assert(Node::spec_leaf(spec_child_min(n.min_position, half, 5), half, w).wf());
        assert(Node::spec_leaf(spec_child_min(n.min_position, half, 6), half, w).wf());
        assert(Node::spec_leaf(spec_child_min(n.min_position, half, 7), half, w).wf());
        assert forall|i: int| 0 <= i < 8 implies match #[trigger] mat.child(i) {
            Some(c) => {
                &&& c.dimension == mat.dimension / 2
                &&& c.min_position == spec_child_min(mat.min_position, mat.dimension / 2, i)
                &&& c.wf()
            },
            None => true,
        } by {
            if i == oct {
                assert(mat.child(i) == n.child(i));
            } else {
                assert(mat.child(i) == Some(
                    Box::new(Node::spec_leaf(spec_child_min(n.min_position, half, i), half, w)),
                ));
            }
        };
        assert(mat.wf());
    }

    /// Insertion keeps a node well-formed and keeps its bounds, for any
    /// minimum side length that is a power of two dividing the node's own.
    #[verifier::rlimit(80)]
    #[verifier::spinoff_prover]
    pub proof fn lemma_insert_wf(n: Node<V>, p: Vector3, m: u32, do_simplify: bool, v: V)
        requires
            n.wf(),
            m >= 1,
            is_pow2(m as int),
            m <= n.dimension,
        ensures
            Node::spec_insert(n, p, m, do_simplify, v).wf(),
            Node::spec_insert(n, p, m, do_simplify, v).dimension == n.dimension,
            Node::spec_insert(n, p, m, do_simplify, v).min_position == n.min_position,
        decreases n.dimension,
    {
        if n.dimension == m {
            let r0 = Node { ty: NodeType::Leaf(v), ..n };
            assert(forall|i: int| 0 <= i < 8 ==> #[trigger] r0.child(i) == n.child(i));
            assert(r0.wf());
        } else {
            lemma_pow2_le_divides(m as int, n.dimension as int);
            assert(n.dimension >= 2 && n.dimension % 2 == 0);
            assert(is_pow2((n.dimension / 2) as int));
            let half = (n.dimension / 2) as u32;
            let oct = Octant::spec_octant_of(spec_midpoint(n.min_position, n.dimension), p).idx();
            assert(0 <= oct < 8);
            let base = if half == m {
                match n.ty {
                    NodeType::Leaf(w) => Node::spec_materialized(n, half, oct, w),
                    NodeType::Internal => n,
                }
            } else {
                n
            };
            match n.ty {
                NodeType::Leaf(w) => {
                    if half == m {
                        Self::lemma_materialized_wf(n, oct, w);
                    }
                },
                NodeType::Internal => {},
            }
            assert(base.wf());
            let stepped = match base.child(oct) {
                Some(c) => {
                    assert(c.dimension == half && c.wf() && c.min_position == spec_child_min(
                        n.min_position,
                        half,
                        oct,
                    ));
                    Self::lemma_insert_wf(*c, p, m, do_simplify, v);
                    base.with_child(
                        oct,
                        Some(Box::new(Node::spec_insert(*c, p, m, do_simplify, v))),
                    )
                },
                None => {
                    assert(half * (oct % 2) <= half) by (nonlinear_arith)
                        requires
                            0 <= oct % 2 <= 1 && half >= 0,
                    ;
                    assert(half * ((oct / 2) % 2) <= half) by (nonlinear_arith)
                        requires
                            0 <= (oct / 2) % 2 <= 1 && half >= 0,
                    ;
                    assert(half * (oct / 4) <= half) by (nonlinear_arith)
                        requires
                            0 <= oct / 4 <= 1 && half >= 0,
                    ;
                    let fresh = Node::spec_leaf(
                        spec_child_min(n.min_position, half, oct),
                        half,
                        V::default_spec(),
                    );
                    assert(fresh.wf());
                    Self::lemma_insert_wf(fresh, p, m, do_simplify, v);
                    base.with_child(
                        oct,
                        Some(Box::new(Node::spec_insert(fresh, p, m, do_simplify, v))),
                    )
                },
            };
            assert(forall|i: int|
                0 <= i < 8 && i != oct ==> #[trigger] stepped.child(i) == base.child(i));
            assert(stepped.wf());
            let marked = Node { ty: NodeType::Internal, ..stepped };
            assert(forall|i: int| 0 <= i < 8 ==> #[trigger] marked.child(i) == stepped.child(i));
            assert(marked.wf());
            if do_simplify {
                Self::lemma_simplify_wf(marked);
            }
        }
    }

    /// What clearing does: insertion's mirror, writing the default value. At
    /// the minimum side length the node becomes a default leaf. Above it,
    /// when a leaf is fragmented at the last level of subdivision, the seven
    /// other octants are materialized with the prior value and the target
    /// octant ends as a leaf carrying the default. After recursing into an
    /// existing child, that child's type is forced to a default leaf when
    /// this node was a leaf or sits at the target boundary, else to internal.
    pub open spec fn spec_clear(n: Node<V>, p: Vector3, m: u32) -> Node<V>
        decreases n.dimension,
    {
        if n.dimension == m {
            Node { ty: NodeType::Leaf(V::default_spec()), ..n }
        } else if n.dimension < 1 {
            n
        } else {
            let half = (n.dimension / 2) as u32;
            let oct = Octant::spec_octant_of(spec_midpoint(n.min_position, n.dimension), p).idx();
            let base = if half == m {
                match n.ty {
                    NodeType::Leaf(w) => Node::spec_materialized(n, half, oct, w),
                    NodeType::Internal => n,
                }
            } else {
                n
            };
            let forced_ty = if n.ty is Leaf || half == m {
                NodeType::Leaf(V::default_spec())
            } else {
                NodeType::<V>::Internal
            };
            let stepped = match base.child(oct) {
                Some(c) => {
                    if c.dimension < n.dimension {
                        let cleared = Node::spec_clear(*c, p, m);
                        base.with_child(oct, Some(Box::new(Node { ty: forced_ty, ..cleared })))
                    } else {
                        base
                    }
                },
                None => {
                    let fresh = Node::spec_leaf(
                        spec_child_min(n.min_position, half, oct),
                        half,
                        V::default_spec(),
                    );
                    let cleared = Node::spec_clear(fresh, p, m);
                    base.with_child(oct, Some(Box::new(Node { ty: forced_ty, ..cleared })))
                },
            };
            Node { ty: NodeType::Internal, ..stepped }
        }
    }

    /// Clearing keeps a node well-formed and keeps its bounds.
    #[verifier::rlimit(80)]
    #[verifier::spinoff_prover]
    pub proof fn lemma_clear_wf(n: Node<V>, p: Vector3, m: u32)
        requires
            n.wf(),
            m >= 1,
            is_pow2(m as int),
            m <= n.dimension,
        ensures
            Node::spec_clear(n, p, m).wf(),
            Node::spec_clear(n, p, m).dimension == n.dimension,
            Node::spec_clear(n, p, m).min_position == n.min_position,
        decreases n.dimension,
    {
        if n.dimension == m {
            let r0 = Node { ty: NodeType::Leaf(V::default_spec()), ..n };
            assert(forall|i: int| 0 <= i < 8 ==> #[trigger] r0.child(i) == n.child(i));
            assert(r0.wf());
        } else {
            lemma_pow2_le_divides(m as int, n.dimension as int);
            assert(n.dimension >= 2 && n.dimension % 2 == 0);
            assert(is_pow2((n.dimension / 2) as int));
            let half = (n.dimension / 2) as u32;
            let oct = Octant::spec_octant_of(spec_midpoint(n.min_position, n.dimension), p).idx();
            assert(0 <= oct < 8);
            let base = if half == m {
                match n.ty {
                    NodeType::Leaf(w) => Node::spec_materialized(n, half, oct, w),
                    NodeType::Internal => n,
                }
            } else {
                n
            };
            match n.ty {
                NodeType::Leaf(w) => {
                    if half == m {
                        Self::lemma_materialized_wf(n, oct, w);
                    }
                },
                NodeType::Internal => {},
            }
            assert(base.wf());
            let forced_ty = if n.ty is Leaf || half == m {
                NodeType::Leaf(V::default_spec())
            } else {
                NodeType::<V>::Internal
            };
            let stepped = match base.child(oct) {
                Some(c) => {
                    assert(c.dimension == half && c.wf() && c.min_position == spec_child_min(
                        n.min_position,
                        half,
                        oct,
                    ));
                    Self::lemma_clear_wf(*c, p, m);
                    let cleared = Node::spec_clear(*c, p, m);
                    let replaced = Node { ty: forced_ty, ..cleared };
                    assert(forall|i: int|
                        0 <= i < 8 ==> #[trigger] replaced.child(i) == cleared.child(i));
                    assert(replaced.wf());
                    base.with_child(oct, Some(Box::new(replaced)))
                },
                None => {
                    assert(half * (oct % 2) <= half) by (nonlinear_arith)
                        requires
                            0 <= oct % 2 <= 1 && half >= 0,
                    ;
                    assert(half * ((oct / 2) % 2) <= half) by (nonlinear_arith)
                        requires
                            0 <= (oct / 2) % 2 <= 1 && half >= 0,
                    ;
                    assert(half * (oct / 4) <= half) by (nonlinear_arith)
                        requires
                            0 <= oct / 4 <= 1 && half >= 0,
                    ;
                    let fresh = Node::spec_leaf(
                        spec_child_min(n.min_position, half, oct),
                        half,
                        V::default_spec(),
                    );
                    assert(fresh.wf());
                    Self::lemma_clear_wf(fresh, p, m);
                    let cleared = Node::spec_clear(fresh, p, m);
                    let replaced = Node { ty: forced_ty, ..cleared };
                    assert(forall|i: int|
                        0 <= i < 8 ==> #[trigger] replaced.child(i) == cleared.child(i));
                    assert(replaced.wf());
                    base.with_child(oct, Some(Box::new(replaced)))
                },
            };
            assert(forall|i: int|
                0 <= i < 8 && i != oct ==> #[trigger] stepped.child(i) == base.child(i));
            assert(stepped.wf());
            let marked = Node { ty: NodeType::Internal, ..stepped };
            assert(forall|i: int| 0 <= i < 8 ==> #[trigger] marked.child(i) == stepped.child(i));
            assert(marked.wf());
        }
    }

    /// Removes the data at the given position, if possible, writing the
    /// default value in its place.
    #[verifier::rlimit(100)]
    #[verifier::spinoff_prover]
    pub fn clear(&mut self, position: Vector3, min_dimension: u32) -> (r: Result<(), Error>)
        requires
            old(self).wf(),
            min_dimension >= 1,
            is_pow2(min_dimension as int),
            min_dimension <= old(self).dimension,
        ensures
            final(self).wf(),
            final(self).dimension == old(self).dimension,
            final(self).min_position == old(self).min_position,
            match r {
                Ok(()) => {
                    &&& in_region(old(self).min_position, old(self).dimension, position)
                    &&& *final(self) == Node::spec_clear(*old(self), position, min_dimension)
                },
                Err(e) => {
                    &&& !in_region(old(self).min_position, old(self).dimension, position)
                    &&& *final(self) == *old(self)
                    &&& e == (Error::InvalidPosition {
                        x: position.x,
                        y: position.y,
                        z: position.z,
                    })
                },
            },
        decreases old(self).dimension,
    {
        if !self.contains(position) {
            return Err(Error::InvalidPosition { x: position.x, y: position.y, z: position.z });
        }
        if self.dimension == min_dimension {
            self.ty = NodeType::Leaf(V::default_value());
            proof {
                Self::lemma_clear_wf(*old(self), position, min_dimension);
            }
            return Ok(());
        }
        proof {
            lemma_pow2_le_divides(min_dimension as int, self.dimension as int);
            lemma_octant_split(self.min_position, self.dimension, position);
        }
        let ci = match self.child_info(position) {
            Some(ci) => ci,
            None => {
                proof {
                    assert(false);
                }
                return Err(Error::InvalidPosition {
                    x: position.x,
                    y: position.y,
                    z: position.z,
                });
            },
        };
        let child_dimension = ci.dimension;
        let dimension_3d = ci.dimension_3d;
        let octant = ci.octant;
        let oct = octant.index();
        let ghost n0 = *self;
        let ghost octi = octant.idx();
        let was_leaf = self.is_leaf();

        if child_dimension == min_dimension {
            match self.leaf_data() {
                Some(w) => {
                    if oct != 0 {
                        let cm = self.child_min_position(dimension_3d, Octant::from_index(0));
                        self.c0 = Some(Box::new(Self::leaf_node(cm, child_dimension, w)));
                    }
                    if oct != 1 {
                        let cm = self.child_min_position(dimension_3d, Octant::from_index(1));
                        self.c1 = Some(Box::new(Self::leaf_node(cm, child_dimension, w)));
                    }
                    if oct != 2 {
                        let cm = self.child_min_position(dimension_3d, Octant::from_index(2));
                        self.c2 = Some(Box::new(Self::leaf_node(cm, child_dimension, w)));
                    }
                    if oct != 3 {
                        let cm = self.child_min_position(dimension_3d, Octant::from_index(3));
                        self.c3 = Some(Box::new(Self::leaf_node(cm, child_dimension, w)));
                    }
                    if oct != 4 {
                        let cm = self.child_min_position(dimension_3d, Octant::from_index(4));
                        self.c4 = Some(Box::new(Self::leaf_node(cm, child_dimension, w)));
                    }
                    if oct != 5 {
                        let cm = self.child_min_position(dimension_3d, Octant::from_index(5));
                        self.c5 = Some(Box::new(Self::leaf_node(cm, child_dimension, w)));
                    }
                    if oct != 6 {
                        let cm = self.child_min_position(dimension_3d, Octant::from_index(6));
                        self.c6 = Some(Box::new(Self::leaf_node(cm, child_dimension, w)));
                    }
                    if oct != 7 {
                        let cm = self.child_min_position(dimension_3d, Octant::from_index(7));
                        self.c7 = Some(Box::new(Self::leaf_node(cm, child_dimension, w)));
                    }
                },
                None => {},
            }
        }
        let ghost base = if child_dimension == min_dimension {
            match n0.ty {
                NodeType::Leaf(w) => Node::spec_materialized(n0, child_dimension, octi, w),
                NodeType::Internal => n0,
            }
        } else {
            n0
        };
        assert(*self == base);

        let slot = self.take_child(oct);
        match slot {
            Some(mut boxed) => {
                let res = boxed.clear(position, min_dimension);
                proof {
                    assert(res is Ok);
                }
                if was_leaf || child_dimension == min_dimension {
                    boxed.ty = NodeType::Leaf(V::default_value());
                } else {
                    boxed.ty = NodeType::Internal;
                }
                self.set_child(oct, Some(boxed));
            },
            None => {
                let cm = self.child_min_position(dimension_3d, octant);
                let mut fresh = Box::new(Self::leaf_node(cm, child_dimension, V::default_value()));
                let res = fresh.clear(position, min_dimension);
                proof {
                    assert(res is Ok);
                }
                if was_leaf || child_dimension == min_dimension {
                    fresh.ty = NodeType::Leaf(V::default_value());
                } else {
                    fresh.ty = NodeType::Internal;
                }
                self.set_child(oct, Some(fresh));
            },
        }
        self.ty = NodeType::Internal;
        proof {
            Self::lemma_clear_wf(n0, position, min_dimension);
        }
        Ok(())
    }

    /// What level-of-detail collapse does to one child slot: a leaf child is
    /// kept, an internal child is collapsed recursively.
    pub open spec fn spec_lod_child(c: Option<Box<Node<V>>>) -> Option<Box<Node<V>>>
        decreases c,
    {
        match c {
            None => None,
            Some(b) => {
                match b.ty {
                    NodeType::Leaf(_) => Some(b),
                    NodeType::Internal => Some(Box::new(Node::spec_lod(*b))),
                }
            },
        }
    }

    /// Whether every child slot holds a leaf child.
    pub open spec fn spec_all_leaves(p: Node<V>) -> bool {
        forall|i: int| 0 <= i < 8 ==> #[trigger] p.spec_child_leaf_value(i) is Some
    }

    /// What level-of-detail collapse does: child slots are visited in index
    /// order, internal children being collapsed recursively; the visit stops
    /// at the first empty slot, leaving this node's own tag and later slots
    /// untouched. When every slot was occupied and all eight children ended
    /// as leaves, the node becomes a leaf holding their most frequent value —
    /// ties broken towards the lowest octant index — and drops its children.
    pub open spec fn spec_lod(n: Node<V>) -> Node<V>
        decreases n,
    {
        let k = n.spec_first_absent();
        let processed = Node {
            c0: if 0 < k {
                Node::spec_lod_child(n.c0)
            } else {
                n.c0
            },
            c1: if 1 < k {
                Node::spec_lod_child(n.c1)
            } else {
                n.c1
            },
            c2: if 2 < k {
                Node::spec_lod_child(n.c2)
            } else {
                n.c2
            },
            c3: if 3 < k {
                Node::spec_lod_child(n.c3)
            } else {
                n.c3
            },
            c4: if 4 < k {
                Node::spec_lod_child(n.c4)
            } else {
                n.c4
            },
            c5: if 5 < k {
                Node::spec_lod_child(n.c5)
            } else {
                n.c5
            },
            c6: if 6 < k {
                Node::spec_lod_child(n.c6)
            } else {
                n.c6
            },
            c7: if 7 < k {
                Node::spec_lod_child(n.c7)
            } else {
                n.c7
            },
            ..n
        };
        if k == 8 && Node::spec_all_leaves(processed) {
            let vals = Seq::new(8, |i: int| opt_value(processed.spec_child_leaf_value(i)));
            (Node { ty: NodeType::Leaf(spec_majority_value(vals)), ..processed }).spec_drop_children()
        } else {
            processed
        }
    }

    /// Counts how many entries of `vals` equal `x`.
    fn count_eq(vals: &Vec<V>, x: V) -> (r: usize)
        ensures
            r == spec_count_val(vals@, x),
    {
        let mut cnt: usize = 0;
        let mut j: usize = 0;
        while j < vals.len()
            invariant
                0 <= j <= vals@.len(),
                cnt == spec_count_val(vals@.subrange(0, j as int), x),
                cnt <= j,
            decreases vals@.len() - j,
        {
            proof {
                assert(vals@.subrange(0, j + 1).drop_last() =~= vals@.subrange(0, j as int));
                assert(vals@.subrange(0, j + 1).last() == vals@[j as int]);
            }
            if vals[j].eq_value(&x) {
                cnt += 1;
            }
            j += 1;
        }
        proof {
            assert(vals@.subrange(0, vals@.len() as int) =~= vals@);
        }
        cnt
    }

    /// Runs [`Node::spec_lod_child`] on one child slot.
    fn lod_child_exec(c: &mut Option<Box<Node<V>>>)
        ensures
            *final(c) == Node::spec_lod_child(*old(c)),
        decreases *old(c),
    {
        match c.take() {
            None => {},
            Some(mut boxed) => {
                if !boxed.is_leaf() {
                    boxed.lod();
                }
                *c = Some(boxed);
            },
        }
    }

    /// Returns a higher LOD of the current `Node`.
    ///
    /// For a fully dense node, every internal child is first collapsed; the
    /// node then takes the most common value of its children — ties broken
    /// towards the lowest octant index — and destroys all children. A node
    /// with any empty child slot is left unchanged.
    /// When every child slot is occupied but some child did not end as a
    /// leaf, level-of-detail collapse stops after the per-child pass.
    proof fn lemma_lod_no_collapse(n: Node<V>, cur: Node<V>, w: int)
        requires
            n.spec_first_absent() == 8,
            cur == (Node {
                c0: Node::spec_lod_child(n.c0),
                c1: Node::spec_lod_child(n.c1),
                c2: Node::spec_lod_child(n.c2),
                c3: Node::spec_lod_child(n.c3),
                c4: Node::spec_lod_child(n.c4),
                c5: Node::spec_lod_child(n.c5),
                c6: Node::spec_lod_child(n.c6),
                c7: Node::spec_lod_child(n.c7),
                ..n
            }),
            0 <= w < 8,
            cur.spec_child_leaf_value(w) is None,
        ensures
            Node::spec_lod(n) == cur,
    {
        let k = n.spec_first_absent();
        let processed = Node {
            c0: if 0 < k {
                Node::spec_lod_child(n.c0)
            } else {
                n.c0
            },
            c1: if 1 < k {
                Node::spec_lod_child(n.c1)
            } else {
                n.c1
            },
            c2: if 2 < k {
                Node::spec_lod_child(n.c2)
            } else {
                n.c2
            },
            c3: if 3 < k {
                Node::spec_lod_child(n.c3)
            } else {
                n.c3
            },
            c4: if 4 < k {
                Node::spec_lod_child(n.c4)
            } else {
                n.c4
            },
            c5: if 5 < k {
                Node::spec_lod_child(n.c5)
            } else {
                n.c5
            },
            c6: if 6 < k {
                Node::spec_lod_child(n.c6)
            } else {
                n.c6
            },
            c7: if 7 < k {
                Node::spec_lod_child(n.c7)
            } else {
                n.c7
            },
            ..n
        };
        assert(processed == cur);
        assert(processed.spec_child_leaf_value(w) is None);
        assert(!Node::spec_all_leaves(processed));
        assert(Node::spec_lod(n) == processed);
    }

    #[verifier::rlimit(100)]
    #[verifier::spinoff_prover]
    pub fn lod(&mut self)
        ensures
            *final(self) == Node::spec_lod(*old(self)),
        decreases *old(self),
    {
        if self.c0.is_none() {
            proof {
                assert(old(self).spec_first_absent() == 0);
            }
            return ;
        }
        Self::lod_child_exec(&mut self.c0);
        if self.c1.is_none() {
            proof {
                assert(old(self).spec_first_absent() == 1);
            }
            return ;
        }
        Self::lod_child_exec(&mut self.c1);
        if self.c2.is_none() {
            proof {
                assert(old(self).spec_first_absent() == 2);
            }
            return ;
        }
        Self::lod_child_exec(&mut self.c2);
        if self.c3.is_none() {
            proof {
                assert(old(self).spec_first_absent() == 3);
            }
            return ;
        }
        Self::lod_child_exec(&mut self.c3);
        if self.c4.is_none() {
            proof {
                assert(old(self).spec_first_absent() == 4);
            }
            return ;
        }
        Self::lod_child_exec(&mut self.c4);
        if self.c5.is_none() {
            proof {
                assert(old(self).spec_first_absent() == 5);
            }
            return ;
        }
        Self::lod_child_exec(&mut self.c5);
        if self.c6.is_none() {
            proof {
                assert(old(self).spec_first_absent() == 6);
            }
            return ;
        }
        Self::lod_child_exec(&mut self.c6);
        if self.c7.is_none() {
            proof {
                assert(old(self).spec_first_absent() == 7);
            }
            return ;
        }
        Self::lod_child_exec(&mut self.c7);
        proof {
            assert(old(self).spec_first_absent() == 8);
            assert(*self == (Node {
                c0: Node::spec_lod_child(old(self).c0),
                c1: Node::spec_lod_child(old(self).c1),
                c2: Node::spec_lod_child(old(self).c2),
                c3: Node::spec_lod_child(old(self).c3),
                c4: Node::spec_lod_child(old(self).c4),
                c5: Node::spec_lod_child(old(self).c5),
                c6: Node::spec_lod_child(old(self).c6),
                c7: Node::spec_lod_child(old(self).c7),
                ..*old(self)
            }));
        }
        let ghost processed = *self;
        let v0 = match self.child_leaf_value(0) {
            Some(v) => v,
            None => {
                proof {
                    assert(processed.spec_child_leaf_value(0) is None);
                    Self::lemma_lod_no_collapse(*old(self), processed, 0);
                }
                return ;
            },
        };
        let v1 = match self.child_leaf_value(1) {
            Some(v) => v,
            None => {
                proof {
                    assert(processed.spec_child_leaf_value(1) is None);
                    Self::lemma_lod_no_collapse(*old(self), processed, 1);
                }
                return ;
            },
        };
        let v2 = match self.child_leaf_value(2) {
            Some(v) => v,
            None => {
                proof {
                    assert(processed.spec_child_leaf_value(2) is None);
                    Self::lemma_lod_no_collapse(*old(self), processed, 2);
                }
                return ;
            },
        };
        let v3 = match self.child_leaf_value(3) {
            Some(v) => v,
            None => {
                proof {
                    assert(processed.spec_child_leaf_value(3) is None);
                    Self::lemma_lod_no_collapse(*old(self), processed, 3);
                }
                return ;
            },
        };
        let v4 = match self.child_leaf_value(4) {
            Some(v) => v,
            None => {
                proof {
                    assert(processed.spec_child_leaf_value(4) is None);
                    Self::lemma_lod_no_collapse(*old(self), processed, 4);
                }
                return ;
            },
        };
        let v5 = match self.child_leaf_value(5) {
            Some(v) => v,
            None => {
                proof {
                    assert(processed.spec_child_leaf_value(5) is None);
                    Self::lemma_lod_no_collapse(*old(self), processed, 5);
                }
                return ;
            },
        };
        let v6 = match self.child_leaf_value(6) {
            Some(v) => v,
            None => {
                proof {
                    assert(processed.spec_child_leaf_value(6) is None);
                    Self::lemma_lod_no_collapse(*old(self), processed, 6);
                }
                return ;
            },
        };
        let v7 = match self.child_leaf_value(7) {
            Some(v) => v,
            None => {
                proof {
                    assert(processed.spec_child_leaf_value(7) is None);
                    Self::lemma_lod_no_collapse(*old(self), processed, 7);
                }
                return ;
            },
        };
        let mut vals: Vec<V> = Vec::new();
        vals.push(v0);
        vals.push(v1);
        vals.push(v2);
        vals.push(v3);
        vals.push(v4);
        vals.push(v5);
        vals.push(v6);
        vals.push(v7);
        proof {
            assert(vals@ =~= Seq::new(8, |i: int| opt_value(processed.spec_child_leaf_value(i))));
        }
        let x0 = vals[0];
        let mut best_i: usize = 0;
        let mut best_c: usize = Self::count_eq(&vals, x0);
        let mut i: usize = 1;
        while i < 8
            invariant
                1 <= i <= 8,
                vals@.len() == 8,
                best_i < i,
                best_i == spec_best_idx(vals@, i as int),
                best_c == spec_count_val(vals@, vals@[best_i as int]),
            decreases 8 - i,
        {
            let xi = vals[i];
            let ci = Self::count_eq(&vals, xi);
            if ci > best_c {
                best_i = i;
                best_c = ci;
            }
            i += 1;
        }
        let w = vals[best_i];
        proof {
            assert(w == spec_majority_value(vals@));
        }
        self.ty = NodeType::Leaf(w);
        self.c0 = None;
        self.c1 = None;
        self.c2 = None;
        self.c3 = None;
        self.c4 = None;
        self.c5 = None;
        self.c6 = None;
        self.c7 = None;
    }

    /// Level-of-detail collapse keeps a node well-formed and keeps its
    /// bounds.
    pub proof fn lemma_lod_wf(n: Node<V>)
        requires
            n.wf(),
        ensures
            Node::spec_lod(n).wf(),
            Node::spec_lod(n).dimension == n.dimension,
            Node::spec_lod(n).min_position == n.min_position,
        decreases n,
    {
        {
            match n.c0 {
                Some(b) => {
                    assert(n.child(0) == Some(b));
                    if b.ty is Internal {
                        Self::lemma_lod_wf(*b);
                    }
                },
                None => {},
            }
            match n.c1 {
                Some(b) => {
                    assert(n.child(1) == Some(b));
                    if b.ty is Internal {
                        Self::lemma_lod_wf(*b);
                    }
                },
                None => {},
            }
            match n.c2 {
                Some(b) => {
                    assert(n.child(2) == Some(b));
                    if b.ty is Internal {
                        Self::lemma_lod_wf(*b);
                    }
                },
                None => {},
            }
            match n.c3 {
                Some(b) => {
                    assert(n.child(3) == Some(b));
                    if b.ty is Internal {
                        Self::lemma_lod_wf(*b);
                    }
                },
                None => {},
            }
            match n.c4 {
                Some(b) => {
                    assert(n.child(4) == Some(b));
                    if b.ty is Internal {
                        Self::lemma_lod_wf(*b);
                    }
                },
                None => {},
            }
            match n.c5 {
                Some(b) => {
                    assert(n.child(5) == Some(b));
                    if b.ty is Internal {
                        Self::lemma_lod_wf(*b);
                    }
                },
                None => {},
            }
            match n.c6 {
                Some(b) => {
                    assert(n.child(6) == Some(b));
                    if b.ty is Internal {
                        Self::lemma_lod_wf(*b);
                    }
                },
                None => {},
            }
            match n.c7 {
                Some(b) => {
                    assert(n.child(7) == Some(b));
                    if b.ty is Internal {
                        Self::lemma_lod_wf(*b);
                    }
                },
                None => {},
            }
            let k = n.spec_first_absent();
            let processed = Node {
                c0: if 0 < k {
                    Node::spec_lod_child(n.c0)
                } else {
                    n.c0
                },
                c1: if 1 < k {
                    Node::spec_lod_child(n.c1)
                } else {
                    n.c1
                },
                c2: if 2 < k {
                    Node::spec_lod_child(n.c2)
                } else {
                    n.c2
                },
                c3: if 3 < k {
                    Node::spec_lod_child(n.c3)
                } else {
                    n.c3
                },
                c4: if 4 < k {
                    Node::spec_lod_child(n.c4)
                } else {
                    n.c4
                },
                c5: if 5 < k {
                    Node::spec_lod_child(n.c5)
                } else {
                    n.c5
                },
                c6: if 6 < k {
                    Node::spec_lod_child(n.c6)
                } else {
                    n.c6
                },
                c7: if 7 < k {
                    Node::spec_lod_child(n.c7)
                } else {
                    n.c7
                },
                ..n
            };
            assert forall|i: int| 0 <= i < 8 implies match #[trigger] processed.child(i) {
                Some(c) => {
                    &&& c.dimension == processed.dimension / 2
                    &&& c.min_position == spec_child_min(
                        processed.min_position,
                        processed.dimension / 2,
                        i,
                    )
                    &&& c.wf()
                },
                None => true,
            } by {
                if i < k {
                    assert(n.child(i) is Some);
                    assert(processed.child(i) == Node::spec_lod_child(n.child(i)));
                } else {
                    assert(processed.child(i) == n.child(i));
                }
            };
            assert(processed.wf());
            let r = Node::spec_lod(n);
            if k == 8 && Node::spec_all_leaves(processed) {
                assert(forall|i: int| 0 <= i < 8 ==> #[trigger] r.child(i) is None);
                assert(r.wf());
            }
        }
    }

    /// Write-then-read: after inserting `v` at an in-bounds point `p`, the
    /// tree reads `v` back at `p`, whether or not simplification was
    /// requested.
    #[verifier::rlimit(80)]
    #[verifier::spinoff_prover]
    pub proof fn lemma_insert_lookup(n: Node<V>, p: Vector3, m: u32, do_simplify: bool, v: V)
        requires
            n.wf(),
            m >= 1,
            is_pow2(m as int),
            m <= n.dimension,
            in_region(n.min_position, n.dimension, p),
        ensures
            Node::spec_insert(n, p, m, do_simplify, v).lookup(p) == Some(v),
        decreases n.dimension,
    {
        let r = Node::spec_insert(n, p, m, do_simplify, v);
        Self::lemma_insert_wf(n, p, m, do_simplify, v);
        if n.dimension == m {
        } else {
            lemma_pow2_le_divides(m as int, n.dimension as int);
            lemma_octant_split(n.min_position, n.dimension, p);
            let half = (n.dimension / 2) as u32;
            let oct = Octant::spec_octant_of(spec_midpoint(n.min_position, n.dimension), p).idx();
            let cmin = spec_child_min(n.min_position, half, oct);
            let base = if half == m {
                match n.ty {
                    NodeType::Leaf(w) => Node::spec_materialized(n, half, oct, w),
                    NodeType::Internal => n,
                }
            } else {
                n
            };
            let inner = match base.child(oct) {
                Some(c) => {
                    assert(base.child(oct) == n.child(oct));
                    assert(c.dimension == half && c.wf() && c.min_position == cmin);
                    Self::lemma_insert_lookup(*c, p, m, do_simplify, v);
                    Self::lemma_insert_wf(*c, p, m, do_simplify, v);
                    Node::spec_insert(*c, p, m, do_simplify, v)
                },
                None => {
                    let fresh = Node::spec_leaf(cmin, half, V::default_spec());
                    assert(fresh.wf());
                    Self::lemma_insert_lookup(fresh, p, m, do_simplify, v);
                    Self::lemma_insert_wf(fresh, p, m, do_simplify, v);
                    Node::spec_insert(fresh, p, m, do_simplify, v)
                },
            };
            assert(inner.lookup(p) == Some(v));
            assert(inner.dimension == half && inner.min_position == cmin);
            let stepped = base.with_child(oct, Some(Box::new(inner)));
            let marked = Node { ty: NodeType::Internal, ..stepped };
            assert(marked.child(oct) == Some(Box::new(inner)));
            assert(marked.lookup(p) == inner.lookup(p));
            if do_simplify {
                match marked.spec_uniform_value() {
                    Some(u) => {
                        assert(marked.spec_child_leaf_value(oct) == Some(u));
                        assert(inner.spec_leaf_data() == Some(u));
                        assert(in_region(inner.min_position, inner.dimension, p));
                        assert(inner.lookup(p) == Some(u));
                        assert(u == v);
                        assert(r.lookup(p) == Some(v));
                    },
                    None => {
                        assert(r == marked);
                    },
                }
            }
        }
    }

    /// Clear-then-read: after clearing an in-bounds point `p`, the tree
    /// reads the default value back at `p`.
    #[verifier::rlimit(80)]
    #[verifier::spinoff_prover]
    pub proof fn lemma_clear_lookup(n: Node<V>, p: Vector3, m: u32)
        requires
            n.wf(),
            m >= 1,
            is_pow2(m as int),
            m <= n.dimension,
            in_region(n.min_position, n.dimension, p),
        ensures
            Node::spec_clear(n, p, m).lookup(p) == Some(V::default_spec()),
        decreases n.dimension,
    {
        let r = Node::spec_clear(n, p, m);
        Self::lemma_clear_wf(n, p, m);
        if n.dimension == m {
        } else {
            lemma_pow2_le_divides(m as int, n.dimension as int);
            lemma_octant_split(n.min_position, n.dimension, p);
            let half = (n.dimension / 2) as u32;
            let oct = Octant::spec_octant_of(spec_midpoint(n.min_position, n.dimension), p).idx();
            let cmin = spec_child_min(n.min_position, half, oct);
            let base = if half == m {
                match n.ty {
                    NodeType::Leaf(w) => Node::spec_materialized(n, half, oct, w),
                    NodeType::Internal => n,
                }
            } else {
                n
            };
            let forced_ty = if n.ty is Leaf || half == m {
                NodeType::Leaf(V::default_spec())
            } else {
                NodeType::<V>::Internal
            };
            let cleared = match base.child(oct) {
                Some(c) => {
                    assert(base.child(oct) == n.child(oct));
                    assert(c.dimension == half && c.wf() && c.min_position == cmin);
                    Self::lemma_clear_lookup(*c, p, m);
                    Self::lemma_clear_wf(*c, p, m);
                    Node::spec_clear(*c, p, m)
                },
                None => {
                    let fresh = Node::spec_leaf(cmin, half, V::default_spec());
                    assert(fresh.wf());
                    Self::lemma_clear_lookup(fresh, p, m);
                    Self::lemma_clear_wf(fresh, p, m);
                    Node::spec_clear(fresh, p, m)
                },
            };
            let replaced = Node { ty: forced_ty, ..cleared };
            assert(cleared.dimension == half && cleared.min_position == cmin);
            assert(in_region(replaced.min_position, replaced.dimension, p));
            if n.ty is Leaf || half == m {
                assert(replaced.lookup(p) == Some(V::default_spec()));
            } else {
                assert(half > m);
                assert(cleared.ty is Internal);
                assert(replaced == cleared);
                assert(replaced.lookup(p) == Some(V::default_spec()));
            }
            let stepped = base.with_child(oct, Some(Box::new(replaced)));
            let marked = Node { ty: NodeType::Internal, ..stepped };
            assert(marked.child(oct) == Some(Box::new(replaced)));
            assert(marked.lookup(p) == replaced.lookup(p));
            assert(r == marked);
        }
    }

    /// Recursive simplification keeps a node well-formed and keeps its
    /// bounds.
    pub proof fn lemma_simplify_rec_wf(n: Node<V>)
        requires
            n.wf(),
        ensures
            Node::spec_simplify_rec(n).0.wf(),
            Node::spec_simplify_rec(n).0.dimension == n.dimension,
            Node::spec_simplify_rec(n).0.min_position == n.min_position,
        decreases n,
    {
        match n.c0 {
            Some(b) => {
                assert(n.child(0) == Some(b));
                if b.ty is Internal {
                    Self::lemma_simplify_rec_wf(*b);
                }
            },
            None => {},
        }
        match n.c1 {
            Some(b) => {
                assert(n.child(1) == Some(b));
                if b.ty is Internal {
                    Self::lemma_simplify_rec_wf(*b);
                }
            },
            None => {},
        }
        match n.c2 {
            Some(b) => {
                assert(n.child(2) == Some(b));
                if b.ty is Internal {
                    Self::lemma_simplify_rec_wf(*b);
                }
            },
            None => {},
        }
        match n.c3 {
            Some(b) => {
                assert(n.child(3) == Some(b));
                if b.ty is Internal {
                    Self::lemma_simplify_rec_wf(*b);
                }
            },
            None => {},
        }
        match n.c4 {
            Some(b) => {
                assert(n.child(4) == Some(b));
                if b.ty is Internal {
                    Self::lemma_simplify_rec_wf(*b);
                }
            },
            None => {},
        }
        match n.c5 {
            Some(b) => {
                assert(n.child(5) == Some(b));
                if b.ty is Internal {
                    Self::lemma_simplify_rec_wf(*b);
                }
            },
            None => {},
        }
        match n.c6 {
            Some(b) => {
                assert(n.child(6) == Some(b));
                if b.ty is Internal {
                    Self::lemma_simplify_rec_wf(*b);
                }
            },
            None => {},
        }
        match n.c7 {
            Some(b) => {
                assert(n.child(7) == Some(b));
                if b.ty is Internal {
                    Self::lemma_simplify_rec_wf(*b);
                }
            },
            None => {},
        }
        let k = n.spec_first_absent();
        let processed = Node {
            c0: if 0 < k {
                Node::spec_srec_child(n.c0).0
            } else {
                n.c0
            },
            c1: if 1 < k {
                Node::spec_srec_child(n.c1).0
            } else {
                n.c1
            },
            c2: if 2 < k {
                Node::spec_srec_child(n.c2).0
            } else {
                n.c2
            },
            c3: if 3 < k {
                Node::spec_srec_child(n.c3).0
            } else {
                n.c3
            },
            c4: if 4 < k {
                Node::spec_srec_child(n.c4).0
            } else {
                n.c4
            },
            c5: if 5 < k {
                Node::spec_srec_child(n.c5).0
            } else {
                n.c5
            },
            c6: if 6 < k {
                Node::spec_srec_child(n.c6).0
            } else {
                n.c6
            },
            c7: if 7 < k {
                Node::spec_srec_child(n.c7).0
            } else {
                n.c7
            },
            ..n
        };
        assert forall|i: int| 0 <= i < 8 implies match #[trigger] processed.child(i) {
            Some(c) => {
                &&& c.dimension == processed.dimension / 2
                &&& c.min_position == spec_child_min(
                    processed.min_position,
                    processed.dimension / 2,
                    i,
                )
                &&& c.wf()
            },
            None => true,
        } by {
            if i < k {
                assert(processed.child(i) == Node::spec_srec_child(n.child(i)).0);
            } else {
                assert(processed.child(i) == n.child(i));
            }
        };
        assert(processed.wf());
        if k < 8 {
        } else if Node::spec_srec_child(n.c0).1 && Node::spec_srec_child(n.c1).1
            && Node::spec_srec_child(n.c2).1 && Node::spec_srec_child(n.c3).1
            && Node::spec_srec_child(n.c4).1 && Node::spec_srec_child(n.c5).1
            && Node::spec_srec_child(n.c6).1 && Node::spec_srec_child(n.c7).1 {
            Self::lemma_simplify_wf(processed);
        } else {
        }
    }

    /// Decides whether one child slot fits its parent: absent, or a
    /// well-formed subtree of the expected side length at the expected
    /// corner.
    fn check_child(c: &Option<Box<Node<V>>>, expected_min: Vector3, half: u32) -> (r: bool)
        ensures
            r == match *c {
                Some(b) => b.dimension == half && b.min_position == expected_min && b.wf(),
                None => true,
            },
        decreases *c,
    {
        match c {
            Some(b) => {
                b.dimension == half && b.min_position.x == expected_min.x && b.min_position.y
                    == expected_min.y && b.min_position.z == expected_min.z && b.check_wf()
            },
            None => true,
        }
    }

    /// Decides well-formedness of the whole subtree.
    #[verifier::rlimit(100)]
    #[verifier::spinoff_prover]
    pub fn check_wf(&self) -> (r: bool)
        ensures
            r == self.wf(),
        decreases *self,
    {
        if self.dimension < 1 {
            return false;
        }
        if !is_pow2_exec(self.dimension) {
            return false;
        }
        if !(self.min_position.x as u64 + self.dimension as u64 <= 0x1_0000_0000u64
            && self.min_position.y as u64 + self.dimension as u64 <= 0x1_0000_0000u64
            && self.min_position.z as u64 + self.dimension as u64 <= 0x1_0000_0000u64) {
            return false;
        }
        let half = self.dimension / 2;
        let mut ok = true;
        let mut i: usize = 0;
        while i < 8
            invariant
                i <= 8,
                half == self.dimension / 2,
                self.dimension >= 1,
                self.min_position.x + self.dimension <= 0x1_0000_0000,
                self.min_position.y + self.dimension <= 0x1_0000_0000,
                self.min_position.z + self.dimension <= 0x1_0000_0000,
                ok == forall|j: int|
                    0 <= j < i ==> match #[trigger] self.child(j) {
                        Some(c) => {
                            &&& c.dimension == self.dimension / 2
                            &&& c.min_position == spec_child_min(
                                self.min_position,
                                self.dimension / 2,
                                j,
                            )
                            &&& c.wf()
                        },
                        None => true,
                    },
            decreases 8 - i,
        {
            let bit_x: u32 = if i % 2 == 1 {
                1
            } else {
                0
            };
            let bit_y: u32 = if (i / 2) % 2 == 1 {
                1
            } else {
                0
            };
            let bit_z: u32 = if i / 4 >= 1 {
                1
            } else {
                0
            };
            let expected_min = Vector3 {
                x: self.min_position.x + half * bit_x,
                y: self.min_position.y + half * bit_y,
                z: self.min_position.z + half * bit_z,
            };
            proof {
                assert(expected_min == spec_child_min(
                    self.min_position,
                    self.dimension / 2,
                    i as int,
                ));
            }
            let child_ok = Self::check_child(self.child_ref(i), expected_min, half);
            proof {
                if !child_ok {
                    assert(match self.child(i as int) {
                        Some(c) => !(c.dimension == self.dimension / 2 && c.min_position
                            == spec_child_min(self.min_position, self.dimension / 2, i as int)
                            && c.wf()),
                        None => false,
                    });
                }
            }
            ok = ok && child_ok;
            i += 1;
        }
        ok
    }

    /// Gets data from a `Node` at the given position, if possible.
    pub fn get(&self, position: Vector3) -> (r: Option<V>)
        requires
            self.wf(),
        ensures
            r == self.lookup(position),
        decreases *self,
    {
        if !self.contains(position) {
            return None;
        }
        match self.ty {
            NodeType::Leaf(data) => Some(data),
            NodeType::Internal => {
                let ci = self.child_info(position);
                let oct: usize = match ci {
                    Some(info) => info.octant.index(),
                    None => 0,
                };
                assert(oct < 8);
                match self.child_ref(oct) {
                    Some(child) => child.get(position),
                    None => None,
                }
            },
        }
    }
}

} // verus!
