use vstd::prelude::*;

use crate::node::{in_region, spec_midpoint, LeafValue, Node};
use crate::octant::Octant;
use crate::vector::Vector3;

verus! {

/// A run of insertions at minimum side length `m`, without automatic
/// simplification, all writing the same value.
pub open spec fn spec_insert_all<V: LeafValue>(
    n: Node<V>,
    ps: Seq<Vector3>,
    m: u32,
    v: V,
) -> Node<V>
    decreases ps.len(),
{
    if ps.len() == 0 {
        n
    } else {
        spec_insert_all(Node::spec_insert(n, ps[0], m, false, v), ps.drop_first(), m, v)
    }
}

/// Simplify is a no-op on an already-simplified tree: a single childless
/// leaf is left unchanged, and both the one-level and the recursive
/// simplification report that nothing changed.
pub proof fn lemma_simplify_leaf_noop<V: LeafValue>(n: Node<V>)
    requires
        n.ty is Leaf,
        n.spec_child_count() == 0,
    ensures
        Node::spec_simplify(n).0 == n,
        Node::spec_simplify(n).1 == false,
        Node::spec_simplify_rec(n).0 == n,
        Node::spec_simplify_rec(n).1 == false,
{
    assert(n.c0 is None && n.c1 is None && n.c2 is None && n.c3 is None && n.c4 is None && n.c5
        is None && n.c6 is None && n.c7 is None);
    assert(n.spec_first_absent() == 0);
    assert(n.spec_child_leaf_value(0) is None);
    assert(Node::spec_simplify_rec(n).0 == n);
}

/// One insertion at minimum side length `m` into a node of side length
/// `2 * m`: the node ends internal, the destination octant holds a leaf
/// carrying the value, and — when the node was already internal — no other
/// octant changes.
#[verifier::rlimit(100)]
#[verifier::spinoff_prover]
pub proof fn lemma_fill_step<V: LeafValue>(n: Node<V>, p: Vector3, m: u32, v: V)
    requires
        n.wf(),
        m >= 1,
        crate::node::is_pow2(m as int),
        n.dimension as int == 2 * (m as int),
        in_region(n.min_position, n.dimension, p),
    ensures
        ({
            let r = Node::spec_insert(n, p, m, false, v);
            let k = Octant::spec_octant_of(spec_midpoint(n.min_position, n.dimension), p).idx();
            &&& r.wf()
            &&& r.dimension == n.dimension
            &&& r.min_position == n.min_position
            &&& r.ty is Internal
            &&& r.spec_child_leaf_value(k) == Some(v)
            &&& (n.ty is Internal ==> forall|j: int|
                0 <= j < 8 && j != k ==> #[trigger] r.child(j) == n.child(j))
        }),
{
    assert(m <= n.dimension && n.dimension != m && n.dimension >= 2 && n.dimension % 2 == 0);
    assert((n.dimension / 2) as u32 == m);
    Node::lemma_insert_wf(n, p, m, false, v);
    crate::node::lemma_octant_split(n.min_position, n.dimension, p);
    let r = Node::spec_insert(n, p, m, false, v);
    let oct = Octant::spec_octant_of(spec_midpoint(n.min_position, n.dimension), p).idx();
    assert(0 <= oct < 8);
    let base = match n.ty {
        crate::node::NodeType::Leaf(w) => Node::spec_materialized(n, m, oct, w),
        crate::node::NodeType::Internal => n,
    };
    assert(base.child(oct) == n.child(oct));
    let inner = match base.child(oct) {
        Some(c) => {
            assert(c.dimension == m && c.wf());
            Node::spec_insert(*c, p, m, false, v)
        },
        None => {
            let fresh = Node::spec_leaf(
                crate::node::spec_child_min(n.min_position, m, oct),
                m,
                V::default_spec(),
            );
            Node::spec_insert(fresh, p, m, false, v)
        },
    };
    assert(inner.ty == crate::node::NodeType::Leaf(v));
    assert(inner.spec_leaf_data() == Some(v));
    let stepped = base.with_child(oct, Some(Box::new(inner)));
    let marked = Node { ty: crate::node::NodeType::Internal, ..stepped };
    assert(r == marked);
    assert(r.child(oct) == Some(Box::new(inner)));
    assert(r.spec_child_leaf_value(oct) == Some(v));
    if n.ty is Internal {
        assert(base == n);
        assert(forall|j: int| 0 <= j < 8 && j != oct ==> #[trigger] r.child(j) == n.child(j));
    }
}

/// Whether some insertion of the run lands in octant `k` of `n`.
pub open spec fn covers<V: LeafValue>(n: Node<V>, ps: Seq<Vector3>, k: int) -> bool {
    exists|i: int|
        0 <= i < ps.len() && Octant::spec_octant_of(
            spec_midpoint(n.min_position, n.dimension),
            #[trigger] ps[i],
        ).idx() == k
}

/// A run of same-valued insertions at minimum side length `m` into a node
/// of side length `2 * m` leaves a leaf carrying that value in every octant
/// the run touched, and leaves the octants an internal node had elsewhere
/// untouched.
#[verifier::rlimit(100)]
#[verifier::spinoff_prover]
pub proof fn lemma_fill_run<V: LeafValue>(n: Node<V>, ps: Seq<Vector3>, m: u32, v: V)
    requires
        n.wf(),
        m >= 1,
        crate::node::is_pow2(m as int),
        n.dimension as int == 2 * (m as int),
        forall|i: int|
            0 <= i < ps.len() ==> in_region(n.min_position, n.dimension, #[trigger] ps[i]),
    ensures
        ({
            let r = spec_insert_all(n, ps, m, v);
            &&& r.wf()
            &&& r.dimension == n.dimension
            &&& r.min_position == n.min_position
            &&& (ps.len() >= 1 ==> r.ty is Internal)
            &&& (ps.len() == 0 ==> r == n)
            &&& (forall|k: int|
                0 <= k < 8 && covers(n, ps, k) ==> #[trigger] r.spec_child_leaf_value(k) == Some(
                    v,
                ))
            &&& (n.ty is Internal ==> forall|k: int|
                0 <= k < 8 && !covers(n, ps, k) ==> #[trigger] r.child(k) == n.child(k))
        }),
    decreases ps.len(),
{
    if ps.len() == 0 {
    } else {
        let mid = spec_midpoint(n.min_position, n.dimension);
        let k0 = Octant::spec_octant_of(mid, ps[0]).idx();
        lemma_fill_step(n, ps[0], m, v);
        let n1 = Node::spec_insert(n, ps[0], m, false, v);
        let tail = ps.drop_first();
        assert(forall|i: int| 0 <= i < tail.len() ==> #[trigger] tail[i] == ps[i + 1]);
        lemma_fill_run(n1, tail, m, v);
        let r = spec_insert_all(n, ps, m, v);
        assert(r == spec_insert_all(n1, tail, m, v));
        assert(n1.min_position == n.min_position && n1.dimension == n.dimension);
        assert forall|k: int| 0 <= k < 8 && covers(n, ps, k) implies #[trigger] r.spec_child_leaf_value(
            k,
        ) == Some(v) by {
            let i = choose|i: int|
                0 <= i < ps.len() && Octant::spec_octant_of(mid, #[trigger] ps[i]).idx() == k;
            if exists|i2: int|
                0 <= i2 < tail.len() && Octant::spec_octant_of(mid, #[trigger] tail[i2]).idx()
                    == k {
                assert(covers(n1, tail, k));
            } else {
                if i >= 1 {
                    assert(tail[i - 1] == ps[i]);
                    assert(Octant::spec_octant_of(mid, tail[i - 1]).idx() == k);
                    assert(false);
                }
                assert(k == k0);
                assert(!covers(n1, tail, k));
                assert(r.child(k) == n1.child(k));
                assert(n1.spec_child_leaf_value(k0) == Some(v));
            }
        };
        if n.ty is Internal {
            assert forall|k: int| 0 <= k < 8 && !covers(n, ps, k) implies #[trigger] r.child(k)
                == n.child(k) by {
                assert(k != k0);
                assert(n1.child(k) == n.child(k));
                assert(!covers(n1, tail, k)) by {
                    if covers(n1, tail, k) {
                        let i2 = choose|i2: int|
                            0 <= i2 < tail.len() && Octant::spec_octant_of(
                                mid,
                                #[trigger] tail[i2],
                            ).idx() == k;
                        assert(Octant::spec_octant_of(mid, ps[i2 + 1]).idx() == k);
                        assert(covers(n, ps, k));
                    }
                };
            };
        }
    }
}

/// Uniform fill collapses: writing one value at minimum side length `m`
/// into all eight octants of a node of side length `2 * m`, in any order
/// and possibly repeatedly, and then simplifying recursively, leaves a
/// single leaf holding that value, which every point of the region reads
/// back.
#[verifier::rlimit(100)]
#[verifier::spinoff_prover]
pub proof fn lemma_uniform_fill<V: LeafValue>(n: Node<V>, ps: Seq<Vector3>, m: u32, v: V)
    requires
        n.wf(),
        m >= 1,
        crate::node::is_pow2(m as int),
        n.dimension as int == 2 * (m as int),
        forall|i: int|
            0 <= i < ps.len() ==> in_region(n.min_position, n.dimension, #[trigger] ps[i]),
        forall|k: int| 0 <= k < 8 ==> #[trigger] covers(n, ps, k),
    ensures
        Node::spec_simplify_rec(spec_insert_all(n, ps, m, v)).0 == Node::spec_leaf(
            n.min_position,
            n.dimension,
            v,
        ),
        Node::spec_simplify_rec(spec_insert_all(n, ps, m, v)).1 == true,
        forall|p: Vector3|
            in_region(n.min_position, n.dimension, p) ==> #[trigger] Node::spec_simplify_rec(
                spec_insert_all(n, ps, m, v),
            ).0.lookup(p) == Some(v),
{
    lemma_fill_run(n, ps, m, v);
    let r = spec_insert_all(n, ps, m, v);
    assert(r.spec_child_leaf_value(0) == Some(v));
    assert(r.spec_child_leaf_value(1) == Some(v));
    assert(r.spec_child_leaf_value(2) == Some(v));
    assert(r.spec_child_leaf_value(3) == Some(v));
    assert(r.spec_child_leaf_value(4) == Some(v));
    assert(r.spec_child_leaf_value(5) == Some(v));
    assert(r.spec_child_leaf_value(6) == Some(v));
    assert(r.spec_child_leaf_value(7) == Some(v));
    assert(r.c0 is Some && r.c1 is Some && r.c2 is Some && r.c3 is Some && r.c4 is Some && r.c5
        is Some && r.c6 is Some && r.c7 is Some);
    assert(r.spec_first_absent() == 8);
    assert(Node::spec_srec_child(r.c0) == (r.c0, true));
    assert(Node::spec_srec_child(r.c1) == (r.c1, true));
    assert(Node::spec_srec_child(r.c2) == (r.c2, true));
    assert(Node::spec_srec_child(r.c3) == (r.c3, true));
    assert(Node::spec_srec_child(r.c4) == (r.c4, true));
    assert(Node::spec_srec_child(r.c5) == (r.c5, true));
    assert(Node::spec_srec_child(r.c6) == (r.c6, true));
    assert(Node::spec_srec_child(r.c7) == (r.c7, true));
    assert(r.spec_uniform_value() == Some(v));
    assert(Node::spec_simplify_rec(r) == Node::spec_simplify(r));
    assert(Node::spec_simplify(r).0 == Node::spec_leaf(n.min_position, n.dimension, v));
    assert(forall|p: Vector3|
        in_region(n.min_position, n.dimension, p) ==> #[trigger] Node::spec_leaf(
            n.min_position,
            n.dimension,
            v,
        ).lookup(p) == Some(v));
}

} // verus!
