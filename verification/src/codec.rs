use vstd::prelude::*;

use crate::error::Error;
use crate::node::{LeafValue, Node, NodeType};
use crate::vector::Vector3;

verus! {

/// One record of a flattened tree snapshot: a node's tag and bounds together
/// with the list positions of its eight children. Position 0 always holds the
/// root, which can never be anyone's child, so 0 marks an absent child.
#[derive(Debug, Clone, Copy)]
pub struct FlatNode<V: LeafValue> {
    pub ty: NodeType<V>,
    pub min_position: Vector3,
    pub dimension: u32,
    pub child0: usize,
    pub child1: usize,
    pub child2: usize,
    pub child3: usize,
    pub child4: usize,
    pub child5: usize,
    pub child6: usize,
    pub child7: usize,
}

impl<V: LeafValue> FlatNode<V> {
    /// The child position stored for octant slot `slot`.
    pub open spec fn child_idx(self, slot: int) -> int {
        if slot == 0 {
            self.child0 as int
        } else if slot == 1 {
            self.child1 as int
        } else if slot == 2 {
            self.child2 as int
        } else if slot == 3 {
            self.child3 as int
        } else if slot == 4 {
            self.child4 as int
        } else if slot == 5 {
            self.child5 as int
        } else if slot == 6 {
            self.child6 as int
        } else {
            self.child7 as int
        }
    }

    /// Reads the child position for `slot`.
    pub fn get_child_idx(&self, slot: usize) -> (r: usize)
        requires
            slot < 8,
        ensures
            r == self.child_idx(slot as int),
    {
        match slot {
            0 => self.child0,
            1 => self.child1,
            2 => self.child2,
            3 => self.child3,
            4 => self.child4,
            5 => self.child5,
            6 => self.child6,
            _ => self.child7,
        }
    }
}

/// How many nodes a subtree holds, this node included.
pub open spec fn count_nodes<V: LeafValue>(n: Node<V>) -> int
    decreases n,
{
    1 + count_opt(n.c0) + count_opt(n.c1) + count_opt(n.c2) + count_opt(n.c3) + count_opt(n.c4)
        + count_opt(n.c5) + count_opt(n.c6) + count_opt(n.c7)
}

/// How many nodes an optional subtree holds.
pub open spec fn count_opt<V: LeafValue>(c: Option<Box<Node<V>>>) -> int
    decreases c,
{
    match c {
        None => 0,
        Some(b) => count_nodes(*b),
    }
}

/// Every subtree holds at least one node.
pub proof fn lemma_count_nodes_pos<V: LeafValue>(n: Node<V>)
    ensures
        count_nodes(n) >= 1,
        count_opt(n.c0) >= 0,
        count_opt(n.c1) >= 0,
        count_opt(n.c2) >= 0,
        count_opt(n.c3) >= 0,
        count_opt(n.c4) >= 0,
        count_opt(n.c5) >= 0,
        count_opt(n.c6) >= 0,
        count_opt(n.c7) >= 0,
    decreases n,
{
    match n.c0 {
        Some(b) => lemma_count_nodes_pos(*b),
        None => {},
    }
    match n.c1 {
        Some(b) => lemma_count_nodes_pos(*b),
        None => {},
    }
    match n.c2 {
        Some(b) => lemma_count_nodes_pos(*b),
        None => {},
    }
    match n.c3 {
        Some(b) => lemma_count_nodes_pos(*b),
        None => {},
    }
    match n.c4 {
        Some(b) => lemma_count_nodes_pos(*b),
        None => {},
    }
    match n.c5 {
        Some(b) => lemma_count_nodes_pos(*b),
        None => {},
    }
    match n.c6 {
        Some(b) => lemma_count_nodes_pos(*b),
        None => {},
    }
    match n.c7 {
        Some(b) => lemma_count_nodes_pos(*b),
        None => {},
    }
}

/// An optional subtree as a sequence: empty, or the single root of the
/// subtree.
pub open spec fn opt_seq<V: LeafValue>(c: Option<Box<Node<V>>>) -> Seq<Node<V>> {
    match c {
        None => Seq::empty(),
        Some(b) => seq![*b],
    }
}

/// The present children of a node, in octant slot order.
pub open spec fn children_list<V: LeafValue>(n: Node<V>) -> Seq<Node<V>> {
    opt_seq(n.c0) + opt_seq(n.c1) + opt_seq(n.c2) + opt_seq(n.c3) + opt_seq(n.c4) + opt_seq(n.c5)
        + opt_seq(n.c6) + opt_seq(n.c7)
}

/// How many nodes a queue of subtrees holds in total.
pub open spec fn total_count<V: LeafValue>(q: Seq<Node<V>>) -> int
    decreases q.len(),
{
    if q.len() == 0 {
        0
    } else {
        count_nodes(q[0]) + total_count(q.drop_first())
    }
}

/// Total counts add up over concatenation.
pub proof fn lemma_total_count_concat<V: LeafValue>(a: Seq<Node<V>>, b: Seq<Node<V>>)
    ensures
        total_count(a + b) == total_count(a) + total_count(b),
    decreases a.len(),
{
    if a.len() == 0 {
        assert(a + b =~= b);
    } else {
        assert((a + b).drop_first() =~= a.drop_first() + b);
        lemma_total_count_concat(a.drop_first(), b);
    }
}

/// An optional subtree as a one-element queue counts its own nodes.
pub proof fn lemma_total_count_opt<V: LeafValue>(c: Option<Box<Node<V>>>)
    ensures
        total_count(opt_seq(c)) == count_opt(c),
{
    match c {
        Some(b) => {
            let s = opt_seq(c);
            assert(s.len() == 1);
            assert(s[0] == *b);
            assert(s.drop_first() =~= Seq::<Node<V>>::empty());
            assert(total_count(s.drop_first()) == 0);
        },
        None => {
            assert(opt_seq(c).len() == 0);
        },
    }
}

/// A queue's total count is at least its length, and never negative.
pub proof fn lemma_total_count_ge_len<V: LeafValue>(q: Seq<Node<V>>)
    ensures
        total_count(q) >= q.len(),
    decreases q.len(),
{
    if q.len() == 0 {
    } else {
        lemma_count_nodes_pos(q[0]);
        lemma_total_count_ge_len(q.drop_first());
    }
}

/// A node's children hold one node fewer than the node's own subtree.
pub proof fn lemma_children_list_count<V: LeafValue>(n: Node<V>)
    ensures
        total_count(children_list(n)) == count_nodes(n) - 1,
        children_list(n).len() <= 8,
{
    let s0 = opt_seq(n.c0);
    let s1 = opt_seq(n.c1);
    let s2 = opt_seq(n.c2);
    let s3 = opt_seq(n.c3);
    let s4 = opt_seq(n.c4);
    let s5 = opt_seq(n.c5);
    let s6 = opt_seq(n.c6);
    let s7 = opt_seq(n.c7);
    lemma_total_count_concat(s0 + s1 + s2 + s3 + s4 + s5 + s6, s7);
    lemma_total_count_concat(s0 + s1 + s2 + s3 + s4 + s5, s6);
    lemma_total_count_concat(s0 + s1 + s2 + s3 + s4, s5);
    lemma_total_count_concat(s0 + s1 + s2 + s3, s4);
    lemma_total_count_concat(s0 + s1 + s2, s3);
    lemma_total_count_concat(s0 + s1, s2);
    lemma_total_count_concat(s0, s1);
    lemma_total_count_opt(n.c0);
    lemma_total_count_opt(n.c1);
    lemma_total_count_opt(n.c2);
    lemma_total_count_opt(n.c3);
    lemma_total_count_opt(n.c4);
    lemma_total_count_opt(n.c5);
    lemma_total_count_opt(n.c6);
    lemma_total_count_opt(n.c7);
}

/// How many of the child slots below `k` are occupied.
pub open spec fn present_before<V: LeafValue>(n: Node<V>, k: int) -> int {
    (if k > 0 && n.c0 is Some {
        1int
    } else {
        0int
    }) + (if k > 1 && n.c1 is Some {
        1int
    } else {
        0int
    }) + (if k > 2 && n.c2 is Some {
        1int
    } else {
        0int
    }) + (if k > 3 && n.c3 is Some {
        1int
    } else {
        0int
    }) + (if k > 4 && n.c4 is Some {
        1int
    } else {
        0int
    }) + (if k > 5 && n.c5 is Some {
        1int
    } else {
        0int
    }) + (if k > 6 && n.c6 is Some {
        1int
    } else {
        0int
    }) + (if k > 7 && n.c7 is Some {
        1int
    } else {
        0int
    })
}

/// The record a breadth-first flattening emits for `n` when its present
/// children will sit at consecutive positions starting at `next`.
pub open spec fn record_of<V: LeafValue>(n: Node<V>, next: int) -> FlatNode<V> {
    FlatNode {
        ty: n.ty,
        min_position: n.min_position,
        dimension: n.dimension,
        child0: if n.c0 is Some {
            (next + present_before(n, 0)) as usize
        } else {
            0
        },
        child1: if n.c1 is Some {
            (next + present_before(n, 1)) as usize
        } else {
            0
        },
        child2: if n.c2 is Some {
            (next + present_before(n, 2)) as usize
        } else {
            0
        },
        child3: if n.c3 is Some {
            (next + present_before(n, 3)) as usize
        } else {
            0
        },
        child4: if n.c4 is Some {
            (next + present_before(n, 4)) as usize
        } else {
            0
        },
        child5: if n.c5 is Some {
            (next + present_before(n, 5)) as usize
        } else {
            0
        },
        child6: if n.c6 is Some {
            (next + present_before(n, 6)) as usize
        } else {
            0
        },
        child7: if n.c7 is Some {
            (next + present_before(n, 7)) as usize
        } else {
            0
        },
    }
}

/// The records a breadth-first traversal emits for the pending queue `q`,
/// whose first element sits at list position `base`: the head's record comes
/// first, its present children join the end of the queue, and the traversal
/// continues.
pub open spec fn spec_flatten_queue<V: LeafValue>(q: Seq<Node<V>>, base: int) -> Seq<FlatNode<V>>
    decreases total_count(q),
    when total_count(q) >= 0
    via spec_flatten_queue_decreases::<V>
{
    if q.len() == 0 {
        Seq::empty()
    } else {
        seq![record_of(q[0], base + q.len())] + spec_flatten_queue(
            q.drop_first() + children_list(q[0]),
            base + 1,
        )
    }
}

#[via_fn]
proof fn spec_flatten_queue_decreases<V: LeafValue>(q: Seq<Node<V>>, base: int) {
    if q.len() != 0 {
        lemma_total_count_concat(q.drop_first(), children_list(q[0]));
        lemma_children_list_count(q[0]);
        lemma_total_count_ge_len(q.drop_first());
        lemma_total_count_ge_len(children_list(q[0]));
    }
}

/// The flat snapshot of a whole tree: the breadth-first record list starting
/// from the root at position 0.
pub open spec fn spec_flatten<V: LeafValue>(t: Node<V>) -> Seq<FlatNode<V>> {
    spec_flatten_queue(seq![t], 0)
}

/// The tree rebuilt from the record at position `i` of snapshot `s`,
/// following child links; a link of 0, or one that does not point strictly
/// forward into the list, yields no child.
pub open spec fn spec_build<V: LeafValue>(s: Seq<FlatNode<V>>, i: int) -> Node<V>
    decreases s.len() - i, 1int,
{
    Node {
        ty: s[i].ty,
        min_position: s[i].min_position,
        dimension: s[i].dimension,
        c0: spec_build_child(s, i, s[i].child0 as int),
        c1: spec_build_child(s, i, s[i].child1 as int),
        c2: spec_build_child(s, i, s[i].child2 as int),
        c3: spec_build_child(s, i, s[i].child3 as int),
        c4: spec_build_child(s, i, s[i].child4 as int),
        c5: spec_build_child(s, i, s[i].child5 as int),
        c6: spec_build_child(s, i, s[i].child6 as int),
        c7: spec_build_child(s, i, s[i].child7 as int),
    }
}

/// One child of a rebuilt node: absent when the link is 0 or does not point
/// strictly forward into the list.
pub open spec fn spec_build_child<V: LeafValue>(s: Seq<FlatNode<V>>, i: int, c: int) -> Option<
    Box<Node<V>>,
>
    decreases s.len() - i, 0int,
{
    if c == 0 || !(i < c && c < s.len()) {
        None
    } else {
        Some(Box::new(spec_build(s, c)))
    }
}

/// Where each present child of `n` sits inside `children_list(n)`.
#[verifier::rlimit(100)]
#[verifier::spinoff_prover]
pub proof fn lemma_children_list_index<V: LeafValue>(n: Node<V>)
    ensures
        children_list(n).len() == present_before(n, 8),
        n.c0 is Some ==> children_list(n)[present_before(n, 0)] == *n.c0.unwrap(),
        n.c1 is Some ==> children_list(n)[present_before(n, 1)] == *n.c1.unwrap(),
        n.c2 is Some ==> children_list(n)[present_before(n, 2)] == *n.c2.unwrap(),
        n.c3 is Some ==> children_list(n)[present_before(n, 3)] == *n.c3.unwrap(),
        n.c4 is Some ==> children_list(n)[present_before(n, 4)] == *n.c4.unwrap(),
        n.c5 is Some ==> children_list(n)[present_before(n, 5)] == *n.c5.unwrap(),
        n.c6 is Some ==> children_list(n)[present_before(n, 6)] == *n.c6.unwrap(),
        n.c7 is Some ==> children_list(n)[present_before(n, 7)] == *n.c7.unwrap(),
{
}

/// The queue of subtrees still to visit: the nodes behind the references
/// from position `cur` on.
pub open spec fn pending_of<V: LeafValue>(rs: Seq<&Node<V>>, cur: int) -> Seq<Node<V>> {
    rs.subrange(cur, rs.len() as int).map_values(|r: &Node<V>| *r)
}

/// The record of `n` with every child link still unassigned.
pub open spec fn partial_record_of<V: LeafValue>(n: Node<V>) -> FlatNode<V> {
    FlatNode {
        ty: n.ty,
        min_position: n.min_position,
        dimension: n.dimension,
        child0: 0,
        child1: 0,
        child2: 0,
        child3: 0,
        child4: 0,
        child5: 0,
        child6: 0,
        child7: 0,
    }
}

/// Well-formedness of a snapshot's child-index graph: there is a root
/// record, every child link is in range, and no record is claimed as a
/// child twice. The records may sit in any order: a child may come before
/// or after its parent. A cycle among records reachable from the root would
/// need some record claimed twice, or a link to position 0, so it is ruled
/// out by these two conditions alone.
pub open spec fn snapshot_wf<V: LeafValue>(s: Seq<FlatNode<V>>) -> bool {
    &&& s.len() >= 1
    &&& forall|i: int, slot: int|
        0 <= i < s.len() && 0 <= slot < 8 ==> (#[trigger] s[i].child_idx(slot) == 0 || (0
            < s[i].child_idx(slot) && s[i].child_idx(slot) < s.len()))
    &&& forall|i1: int, slot1: int, i2: int, slot2: int|
        0 <= i1 < s.len() && 0 <= slot1 < 8 && 0 <= i2 < s.len() && 0 <= slot2 < 8
            && #[trigger] s[i1].child_idx(slot1) == #[trigger] s[i2].child_idx(slot2)
            && s[i1].child_idx(slot1) != 0 ==> (i1 == i2 && slot1 == slot2)
}

/// Whether tree `t` is the one that record `i` of snapshot `s` describes:
/// the record's tag and bounds at the root of `t`, and, for each slot, a
/// subtree matching the linked record exactly where the link is nonzero.
///
/// The recursion runs over the tree, so the records may sit in any order.
pub open spec fn tree_matches<V: LeafValue>(s: Seq<FlatNode<V>>, i: int, t: Node<V>) -> bool
    decreases t,
{
    &&& 0 <= i < s.len()
    &&& t.ty == s[i].ty
    &&& t.min_position == s[i].min_position
    &&& t.dimension == s[i].dimension
    &&& forall|slot: int|
        0 <= slot < 8 ==> match #[trigger] t.child(slot) {
            Some(ch) => {
                &&& s[i].child_idx(slot) != 0
                &&& 0 < s[i].child_idx(slot) < s.len()
                &&& tree_matches(s, s[i].child_idx(slot), *ch)
            },
            None => s[i].child_idx(slot) == 0,
        }
}

/// A snapshot describes at most one tree from any starting record.
pub proof fn lemma_tree_matches_unique<V: LeafValue>(
    s: Seq<FlatNode<V>>,
    i: int,
    t1: Node<V>,
    t2: Node<V>,
)
    requires
        tree_matches(s, i, t1),
        tree_matches(s, i, t2),
    ensures
        t1 == t2,
    decreases t1,
{
    assert forall|slot: int| 0 <= slot < 8 implies #[trigger] t1.child(slot) == t2.child(
        slot,
    ) by {
        match t1.child(slot) {
            Some(ch1) => {
                match t2.child(slot) {
                    Some(ch2) => {
                        lemma_tree_matches_unique(s, s[i].child_idx(slot), *ch1, *ch2);
                    },
                    None => {},
                }
            },
            None => {},
        }
    };
    assert(t1.child(0) == t2.child(0));
    assert(t1.child(1) == t2.child(1));
    assert(t1.child(2) == t2.child(2));
    assert(t1.child(3) == t2.child(3));
    assert(t1.child(4) == t2.child(4));
    assert(t1.child(5) == t2.child(5));
    assert(t1.child(6) == t2.child(6));
    assert(t1.child(7) == t2.child(7));
}

/// For a snapshot whose links all point strictly forward, the rebuild
/// function yields the tree the records describe.
#[verifier::rlimit(100)]
#[verifier::spinoff_prover]
pub proof fn lemma_build_matches<V: LeafValue>(s: Seq<FlatNode<V>>, i: int)
    requires
        0 <= i < s.len(),
        forall|g: int, slot: int|
            0 <= g < s.len() && 0 <= slot < 8 ==> (#[trigger] s[g].child_idx(slot) == 0 || (g
                < s[g].child_idx(slot) && s[g].child_idx(slot) < s.len())),
    ensures
        tree_matches(s, i, spec_build(s, i)),
    decreases s.len() - i,
{
    let b = spec_build(s, i);
    assert forall|slot: int| 0 <= slot < 8 implies match #[trigger] b.child(slot) {
        Some(ch) => {
            &&& s[i].child_idx(slot) != 0
            &&& 0 < s[i].child_idx(slot) < s.len()
            &&& tree_matches(s, s[i].child_idx(slot), *ch)
        },
        None => s[i].child_idx(slot) == 0,
    } by {
        let c = s[i].child_idx(slot);
        assert(b.child(slot) == spec_build_child(s, i, c)) by {
            assert(b.child(0) == spec_build_child(s, i, s[i].child_idx(0)));
            assert(b.child(1) == spec_build_child(s, i, s[i].child_idx(1)));
            assert(b.child(2) == spec_build_child(s, i, s[i].child_idx(2)));
            assert(b.child(3) == spec_build_child(s, i, s[i].child_idx(3)));
            assert(b.child(4) == spec_build_child(s, i, s[i].child_idx(4)));
            assert(b.child(5) == spec_build_child(s, i, s[i].child_idx(5)));
            assert(b.child(6) == spec_build_child(s, i, s[i].child_idx(6)));
            assert(b.child(7) == spec_build_child(s, i, s[i].child_idx(7)));
        };
        if c != 0 {
            assert(i < c && c < s.len());
            lemma_build_matches(s, c);
        }
    };
}

/// A flattened queue produces exactly one record per node.
pub proof fn lemma_flatten_queue_len<V: LeafValue>(q: Seq<Node<V>>, base: int)
    requires
        total_count(q) >= 0,
    ensures
        spec_flatten_queue(q, base).len() == total_count(q),
    decreases total_count(q),
{
    if q.len() == 0 {
        lemma_total_count_ge_len(q);
    } else {
        let q2 = q.drop_first() + children_list(q[0]);
        lemma_total_count_concat(q.drop_first(), children_list(q[0]));
        lemma_children_list_count(q[0]);
        lemma_count_nodes_pos(q[0]);
        lemma_total_count_ge_len(q.drop_first());
        lemma_total_count_ge_len(children_list(q[0]));
        lemma_flatten_queue_len(q2, base + 1);
    }
}

/// The head of a flattened queue rebuilds to the head subtree, once every
/// record behind it rebuilds to the corresponding queued subtree.
#[verifier::rlimit(100)]
#[verifier::spinoff_prover]
proof fn lemma_build_head<V: LeafValue>(s: Seq<FlatNode<V>>, q: Seq<Node<V>>, base: int)
    requires
        0 <= base,
        q.len() >= 1,
        total_count(q) >= 0,
        s.len() == base + total_count(q),
        s.len() <= usize::MAX,
        s[base] == record_of(q[0], base + q.len()),
        forall|j2: int|
            0 <= j2 < (q.drop_first() + children_list(q[0])).len() ==> #[trigger] spec_build(
                s,
                base + 1 + j2,
            ) == (q.drop_first() + children_list(q[0]))[j2],
    ensures
        spec_build(s, base) == q[0],
{
    let n0 = q[0];
    let next = base + q.len();
    let rec = record_of(n0, next);
    let q2 = q.drop_first() + children_list(n0);
    lemma_total_count_concat(q.drop_first(), children_list(n0));
    lemma_children_list_count(n0);
    lemma_children_list_index(n0);
    lemma_count_nodes_pos(n0);
    lemma_total_count_ge_len(q.drop_first());
    lemma_total_count_ge_len(children_list(n0));
    lemma_total_count_ge_len(q);
    let cnt = children_list(n0).len();
    assert(count_nodes(n0) - 1 >= cnt);
    assert(total_count(q) >= q.len() + cnt);
    let b = spec_build(s, base);
    assert(b.ty == n0.ty && b.min_position == n0.min_position && b.dimension == n0.dimension);
                assert(b.c0 == n0.c0) by {
                    match n0.c0 {
                        Some(child) => {
                            let pre = present_before(n0, 0);
                            let c = next + pre;
                            assert(0 <= c <= usize::MAX);
                            assert(rec.child0 == c as usize);
                            assert(pre < cnt);
                            assert(base < c < s.len());
                            let j2 = q.len() - 1 + pre;
                            assert(0 <= j2 < q2.len());
                            assert(q2[j2] == children_list(n0)[pre]);
                            assert(spec_build(s, base + 1 + j2) == q2[j2]);
                            assert(c == base + 1 + j2);
                            assert(spec_build(s, c) == *child);
                        },
                        None => {
                            assert(rec.child0 == 0);
                        },
                    }
                }
                assert(b.c1 == n0.c1) by {
                    match n0.c1 {
                        Some(child) => {
                            let pre = present_before(n0, 1);
                            let c = next + pre;
                            assert(0 <= c <= usize::MAX);
                            assert(rec.child1 == c as usize);
                            assert(pre < cnt);
                            assert(base < c < s.len());
                            let j2 = q.len() - 1 + pre;
                            assert(0 <= j2 < q2.len());
                            assert(q2[j2] == children_list(n0)[pre]);
                            assert(spec_build(s, base + 1 + j2) == q2[j2]);
                            assert(c == base + 1 + j2);
                            assert(spec_build(s, c) == *child);
                        },
                        None => {
                            assert(rec.child1 == 0);
                        },
                    }
                }
                assert(b.c2 == n0.c2) by {
                    match n0.c2 {
                        Some(child) => {
                            let pre = present_before(n0, 2);
                            let c = next + pre;
                            assert(0 <= c <= usize::MAX);
                            assert(rec.child2 == c as usize);
                            assert(pre < cnt);
                            assert(base < c < s.len());
                            let j2 = q.len() - 1 + pre;
                            assert(0 <= j2 < q2.len());
                            assert(q2[j2] == children_list(n0)[pre]);
                            assert(spec_build(s, base + 1 + j2) == q2[j2]);
                            assert(c == base + 1 + j2);
                            assert(spec_build(s, c) == *child);
                        },
                        None => {
                            assert(rec.child2 == 0);
                        },
                    }
                }
                assert(b.c3 == n0.c3) by {
                    match n0.c3 {
                        Some(child) => {
                            let pre = present_before(n0, 3);
                            let c = next + pre;
                            assert(0 <= c <= usize::MAX);
                            assert(rec.child3 == c as usize);
                            assert(pre < cnt);
                            assert(base < c < s.len());
                            let j2 = q.len() - 1 + pre;
                            assert(0 <= j2 < q2.len());
                            assert(q2[j2] == children_list(n0)[pre]);
                            assert(spec_build(s, base + 1 + j2) == q2[j2]);
                            assert(c == base + 1 + j2);
                            assert(spec_build(s, c) == *child);
                        },
                        None => {
                            assert(rec.child3 == 0);
                        },
                    }
                }
                assert(b.c4 == n0.c4) by {
                    match n0.c4 {
                        Some(child) => {
                            let pre = present_before(n0, 4);
                            let c = next + pre;
                            assert(0 <= c <= usize::MAX);
                            assert(rec.child4 == c as usize);
                            assert(pre < cnt);
                            assert(base < c < s.len());
                            let j2 = q.len() - 1 + pre;
                            assert(0 <= j2 < q2.len());
                            assert(q2[j2] == children_list(n0)[pre]);
                            assert(spec_build(s, base + 1 + j2) == q2[j2]);
                            assert(c == base + 1 + j2);
                            assert(spec_build(s, c) == *child);
                        },
                        None => {
                            assert(rec.child4 == 0);
                        },
                    }
                }
                assert(b.c5 == n0.c5) by {
                    match n0.c5 {
                        Some(child) => {
                            let pre = present_before(n0, 5);
                            let c = next + pre;
                            assert(0 <= c <= usize::MAX);
                            assert(rec.child5 == c as usize);
                            assert(pre < cnt);
                            assert(base < c < s.len());
                            let j2 = q.len() - 1 + pre;
                            assert(0 <= j2 < q2.len());
                            assert(q2[j2] == children_list(n0)[pre]);
                            assert(spec_build(s, base + 1 + j2) == q2[j2]);
                            assert(c == base + 1 + j2);
                            assert(spec_build(s, c) == *child);
                        },
                        None => {
                            assert(rec.child5 == 0);
                        },
                    }
                }
                assert(b.c6 == n0.c6) by {
                    match n0.c6 {
                        Some(child) => {
                            let pre = present_before(n0, 6);
                            let c = next + pre;
                            assert(0 <= c <= usize::MAX);
                            assert(rec.child6 == c as usize);
                            assert(pre < cnt);
                            assert(base < c < s.len());
                            let j2 = q.len() - 1 + pre;
                            assert(0 <= j2 < q2.len());
                            assert(q2[j2] == children_list(n0)[pre]);
                            assert(spec_build(s, base + 1 + j2) == q2[j2]);
                            assert(c == base + 1 + j2);
                            assert(spec_build(s, c) == *child);
                        },
                        None => {
                            assert(rec.child6 == 0);
                        },
                    }
                }
                assert(b.c7 == n0.c7) by {
                    match n0.c7 {
                        Some(child) => {
                            let pre = present_before(n0, 7);
                            let c = next + pre;
                            assert(0 <= c <= usize::MAX);
                            assert(rec.child7 == c as usize);
                            assert(pre < cnt);
                            assert(base < c < s.len());
                            let j2 = q.len() - 1 + pre;
                            assert(0 <= j2 < q2.len());
                            assert(q2[j2] == children_list(n0)[pre]);
                            assert(spec_build(s, base + 1 + j2) == q2[j2]);
                            assert(c == base + 1 + j2);
                            assert(spec_build(s, c) == *child);
                        },
                        None => {
                            assert(rec.child7 == 0);
                        },
                    }
                }
    assert(b == n0);
}

/// Rebuilding from a snapshot that carries a flattened queue at positions
/// `base` onwards recovers exactly the queued subtrees.
pub proof fn lemma_flatten_builds<V: LeafValue>(s: Seq<FlatNode<V>>, q: Seq<Node<V>>, base: int)
    requires
        0 <= base,
        total_count(q) >= 0,
        s.len() == base + total_count(q),
        s.len() <= usize::MAX,
        s.subrange(base, s.len() as int) == spec_flatten_queue(q, base),
    ensures
        forall|j: int| 0 <= j < q.len() ==> spec_build(s, base + j) == q[j],
    decreases total_count(q),
{
    if q.len() == 0 {
    } else {
        let n0 = q[0];
        let next = base + q.len();
        let rec = record_of(n0, next);
        let q2 = q.drop_first() + children_list(n0);
        lemma_total_count_concat(q.drop_first(), children_list(n0));
        lemma_children_list_count(n0);
        lemma_count_nodes_pos(n0);
        lemma_total_count_ge_len(q.drop_first());
        lemma_total_count_ge_len(children_list(n0));
        lemma_total_count_ge_len(q);
        assert(spec_flatten_queue(q, base) == seq![rec] + spec_flatten_queue(q2, base + 1));
        lemma_flatten_queue_len(q2, base + 1);
        assert(s[base] == s.subrange(base, s.len() as int)[0]);
        assert(s[base] == rec);
        assert(s.subrange(base + 1, s.len() as int) =~= spec_flatten_queue(q2, base + 1)) by {
            let lhs_all = s.subrange(base, s.len() as int);
            let rhs = spec_flatten_queue(q2, base + 1);
            assert(lhs_all == seq![rec] + rhs);
            assert(rhs.len() == total_count(q) - 1);
            assert forall|j: int| 0 <= j < s.len() - base - 1 implies s.subrange(
                base + 1,
                s.len() as int,
            )[j] == rhs[j] by {
                assert(s.subrange(base + 1, s.len() as int)[j] == s[base + 1 + j]);
                assert(lhs_all[j + 1] == s[base + 1 + j]);
                assert(lhs_all[j + 1] == (seq![rec] + rhs)[j + 1]);
            };
        };
        lemma_flatten_builds(s, q2, base + 1);
        lemma_build_head(s, q, base);
        assert forall|j: int| 0 <= j < q.len() implies spec_build(s, base + j) == q[j] by {
            if j >= 1 {
                assert(q2[j - 1] == q.drop_first()[j - 1]);
                assert(spec_build(s, base + 1 + (j - 1)) == q2[j - 1]);
            }
        }
    }
}

/// Splits one step off a flattened queue: the record at `base` is the
/// head's, and the rest of the snapshot is the flattening of the advanced
/// queue.
proof fn lemma_flatten_tail<V: LeafValue>(s: Seq<FlatNode<V>>, q: Seq<Node<V>>, base: int)
    requires
        0 <= base,
        q.len() >= 1,
        total_count(q) >= 0,
        s.len() == base + total_count(q),
        s.subrange(base, s.len() as int) == spec_flatten_queue(q, base),
    ensures
        s[base] == record_of(q[0], base + q.len()),
        total_count(q.drop_first() + children_list(q[0])) == total_count(q) - 1,
        s.subrange(base + 1, s.len() as int) == spec_flatten_queue(
            q.drop_first() + children_list(q[0]),
            base + 1,
        ),
{
    let n0 = q[0];
    let next = base + q.len();
    let rec = record_of(n0, next);
    let q2 = q.drop_first() + children_list(n0);
    lemma_total_count_concat(q.drop_first(), children_list(n0));
    lemma_children_list_count(n0);
    lemma_count_nodes_pos(n0);
    lemma_total_count_ge_len(q.drop_first());
    lemma_total_count_ge_len(children_list(n0));
    lemma_total_count_ge_len(q);
    assert(spec_flatten_queue(q, base) == seq![rec] + spec_flatten_queue(q2, base + 1));
    lemma_flatten_queue_len(q2, base + 1);
    assert(s[base] == s.subrange(base, s.len() as int)[0]);
    assert(s.subrange(base + 1, s.len() as int) =~= spec_flatten_queue(q2, base + 1)) by {
        let lhs_all = s.subrange(base, s.len() as int);
        let rhs = spec_flatten_queue(q2, base + 1);
        assert(lhs_all == seq![rec] + rhs);
        assert(rhs.len() == total_count(q) - 1);
        assert forall|j: int| 0 <= j < s.len() - base - 1 implies s.subrange(
            base + 1,
            s.len() as int,
        )[j] == rhs[j] by {
            assert(s.subrange(base + 1, s.len() as int)[j] == s[base + 1 + j]);
            assert(lhs_all[j + 1] == s[base + 1 + j]);
            assert(lhs_all[j + 1] == (seq![rec] + rhs)[j + 1]);
        };
    };
}

/// The child links of a single emitted record: absent slots hold 0, present
/// slots hold consecutive positions from `next` on, in slot order.
#[verifier::rlimit(100)]
#[verifier::spinoff_prover]
proof fn lemma_record_of_ranges<V: LeafValue>(n: Node<V>, next: int)
    requires
        1 <= next,
        next + present_before(n, 8) <= usize::MAX,
    ensures
        forall|slot: int|
            0 <= slot < 8 ==> (#[trigger] record_of(n, next).child_idx(slot) == 0 || (next
                <= record_of(n, next).child_idx(slot) && record_of(n, next).child_idx(slot) < next
                + children_list(n).len())),
        forall|slot1: int, slot2: int|
            0 <= slot1 < slot2 < 8 && record_of(n, next).child_idx(slot1) != 0 && record_of(
                n,
                next,
            ).child_idx(slot2) != 0 ==> #[trigger] record_of(n, next).child_idx(slot1)
                < #[trigger] record_of(n, next).child_idx(slot2),
{
    lemma_children_list_index(n);
    let rec = record_of(n, next);
    let cnt = children_list(n).len();
    assert(cnt == present_before(n, 8));
    assert forall|slot: int| 0 <= slot < 8 implies (#[trigger] rec.child_idx(slot) == 0 || (next
        <= rec.child_idx(slot) && rec.child_idx(slot) < next + cnt)) by {
        if rec.child_idx(slot) != 0 {
            assert(present_before(n, slot) < present_before(n, 8));
        }
    };
    assert forall|slot1: int, slot2: int|
        0 <= slot1 < slot2 < 8 && rec.child_idx(slot1) != 0 && rec.child_idx(slot2)
            != 0 implies #[trigger] rec.child_idx(slot1) < #[trigger] rec.child_idx(slot2) by {
        assert(present_before(n, slot1) < present_before(n, slot2));
    };
}

/// In a flattened snapshot every child link points strictly forward, past
/// the whole pending queue, and no position is linked twice.
#[verifier::rlimit(100)]
#[verifier::spinoff_prover]
proof fn lemma_flatten_ranges<V: LeafValue>(s: Seq<FlatNode<V>>, q: Seq<Node<V>>, base: int)
    requires
        0 <= base,
        total_count(q) >= 0,
        s.len() == base + total_count(q),
        s.len() <= usize::MAX,
        s.subrange(base, s.len() as int) == spec_flatten_queue(q, base),
    ensures
        forall|g: int, slot: int|
            base <= g < s.len() && 0 <= slot < 8 ==> (#[trigger] s[g].child_idx(slot) == 0 || (g
                < s[g].child_idx(slot) && s[g].child_idx(slot) < s.len() && s[g].child_idx(slot)
                >= base + q.len())),
        forall|g1: int, slot1: int, g2: int, slot2: int|
            base <= g1 < g2 < s.len() && 0 <= slot1 < 8 && 0 <= slot2 < 8 && #[trigger] s[g1].child_idx(
                slot1,
            ) != 0 && #[trigger] s[g2].child_idx(slot2) != 0 ==> s[g1].child_idx(slot1)
                != s[g2].child_idx(slot2),
        forall|g: int, slot1: int, slot2: int|
            base <= g < s.len() && 0 <= slot1 < slot2 < 8 && s[g].child_idx(slot1) != 0
                && s[g].child_idx(slot2) != 0 ==> #[trigger] s[g].child_idx(slot1)
                != #[trigger] s[g].child_idx(slot2),
    decreases total_count(q),
{
    if q.len() == 0 {
    } else {
        let n0 = q[0];
        let next = base + q.len();
        let rec = record_of(n0, next);
        let q2 = q.drop_first() + children_list(n0);
        let cnt = children_list(n0).len();
        lemma_flatten_tail(s, q, base);
        lemma_total_count_concat(q.drop_first(), children_list(n0));
        lemma_children_list_count(n0);
        lemma_count_nodes_pos(n0);
        lemma_total_count_ge_len(q.drop_first());
        lemma_total_count_ge_len(children_list(n0));
        lemma_total_count_ge_len(q);
        lemma_flatten_ranges(s, q2, base + 1);
        assert(base + 1 + q2.len() == next + cnt);
        assert(next + cnt <= s.len());
        lemma_record_of_ranges(n0, next);
        assert(s[base] == rec);
        assert forall|g: int, slot: int|
            base <= g < s.len() && 0 <= slot < 8 implies (#[trigger] s[g].child_idx(slot) == 0 || (
        g < s[g].child_idx(slot) && s[g].child_idx(slot) < s.len() && s[g].child_idx(slot) >= base
            + q.len())) by {
            if g == base {
            } else {
            }
        };
    }
}

/// Round trip of the codec, at the specification level: flattening any tree
/// yields a well-formed snapshot of one record per node, and rebuilding that
/// snapshot yields the tree itself, so every point reads the same value
/// before and after.
pub proof fn lemma_flatten_round_trip<V: LeafValue>(t: Node<V>)
    requires
        count_nodes(t) <= usize::MAX,
    ensures
        spec_flatten(t).len() == count_nodes(t),
        snapshot_wf(spec_flatten(t)),
        spec_build(spec_flatten(t), 0) == t,
        tree_matches(spec_flatten(t), 0, t),
        forall|p: Vector3| #[trigger] spec_build(spec_flatten(t), 0).lookup(p) == t.lookup(p),
{
    let q = seq![t];
    let s = spec_flatten(t);
    lemma_count_nodes_pos(t);
    assert(q.len() == 1 && q[0] == t);
    assert(q.drop_first() =~= Seq::<Node<V>>::empty());
    assert(total_count(q.drop_first()) == 0);
    assert(total_count(q) == count_nodes(t));
    lemma_flatten_queue_len(q, 0);
    assert(s.subrange(0, s.len() as int) =~= s);
    lemma_flatten_builds(s, q, 0);
    lemma_flatten_ranges(s, q, 0);
    assert(spec_build(s, 0) == q[0]);
    assert forall|i1: int, slot1: int, i2: int, slot2: int|
        0 <= i1 < s.len() && 0 <= slot1 < 8 && 0 <= i2 < s.len() && 0 <= slot2 < 8
            && #[trigger] s[i1].child_idx(slot1) == #[trigger] s[i2].child_idx(slot2)
            && s[i1].child_idx(slot1) != 0 implies (i1 == i2 && slot1 == slot2) by {
        if i1 < i2 {
            assert(s[i1].child_idx(slot1) != s[i2].child_idx(slot2));
        } else if i2 < i1 {
            assert(s[i2].child_idx(slot2) != s[i1].child_idx(slot1));
        } else if slot1 < slot2 {
            assert(s[i1].child_idx(slot1) != s[i1].child_idx(slot2));
        } else if slot2 < slot1 {
            assert(s[i1].child_idx(slot2) != s[i1].child_idx(slot1));
        }
    };
    assert(snapshot_wf(s));
    lemma_build_matches(s, 0);
}

/// Whether the pair `(i1, s1)` comes before `(i2, s2)` when records are
/// scanned in order and each record's slots in order.
pub open spec fn lex_before(i1: int, s1: int, i2: int, s2: int) -> bool {
    i1 < i2 || (i1 == i2 && s1 < s2)
}

/// The childless node a record materializes as, before its children are
/// attached.
pub open spec fn shell_of<V: LeafValue>(r: FlatNode<V>) -> Node<V> {
    Node {
        ty: r.ty,
        min_position: r.min_position,
        dimension: r.dimension,
        c0: None,
        c1: None,
        c2: None,
        c3: None,
        c4: None,
        c5: None,
        c6: None,
        c7: None,
    }
}

/// How many entries of `w` are occupied.
pub open spec fn count_somes<V: LeafValue>(w: Seq<Option<Node<V>>>) -> int
    decreases w.len(),
{
    if w.len() == 0 {
        0
    } else {
        count_somes(w.drop_last()) + if w.last() is Some {
            1int
        } else {
            0int
        }
    }
}

/// Updating an occupied entry keeps the occupancy count; emptying an
/// occupied entry lowers it by one.
pub proof fn lemma_count_somes_update<V: LeafValue>(
    w: Seq<Option<Node<V>>>,
    i: int,
    v: Option<Node<V>>,
)
    requires
        0 <= i < w.len(),
    ensures
        (w[i] is Some && v is Some) ==> count_somes(w.update(i, v)) == count_somes(w),
        (w[i] is Some && v is None) ==> count_somes(w.update(i, v)) == count_somes(w) - 1,
    decreases w.len(),
{
    if w.len() == 0 {
    } else if i == w.len() - 1 {
        assert(w.update(i, v).drop_last() =~= w.drop_last());
    } else {
        assert(w.update(i, v).drop_last() =~= w.drop_last().update(i, v));
        lemma_count_somes_update(w.drop_last(), i, v);
    }
}

/// One stack entry's discipline: it names the position directly below it
/// as its parent, a slot below 8, and the nonzero link that parent's record
/// stores there.
pub open spec fn stack_entry_ok<V: LeafValue>(
    s: Seq<FlatNode<V>>,
    st: Seq<(usize, usize, usize)>,
    k_: int,
) -> bool {
    &&& st[k_].1 == st[k_ - 1].0
    &&& st[k_].2 < 8
    &&& s[st[k_].1 as int].child_idx(st[k_].2 as int) == st[k_].0 as int
    &&& st[k_].0 != 0usize
}

/// The stack discipline of the rebuild: every entry above the root names
/// its parent's position, the slot it fills, and a nonzero link.
pub open spec fn stack_ok<V: LeafValue>(s: Seq<FlatNode<V>>, st: Seq<(usize, usize, usize)>) -> bool {
    forall|k_: int| 1 <= k_ < st.len() ==> #[trigger] stack_entry_ok(s, st, k_)
}

/// Occupancy counts are never negative.
pub proof fn lemma_count_somes_nonneg<V: LeafValue>(w: Seq<Option<Node<V>>>)
    ensures
        count_somes(w) >= 0,
    decreases w.len(),
{
    if w.len() > 0 {
        lemma_count_somes_nonneg(w.drop_last());
    }
}

/// The state of one record's slot during the rebuild: settled when the link
/// is absent or the child already hangs off the materialized node.
pub open spec fn slot_done<V: LeafValue>(
    s: Seq<FlatNode<V>>,
    w: Seq<Option<Node<V>>>,
    i: int,
    slot: int,
) -> bool {
    match w[i] {
        Some(node) => s[i].child_idx(slot) == 0 || node.child(slot) is Some,
        None => true,
    }
}

/// The rebuild invariant for one record: a still-present materialized node
/// carries its record's tag and bounds, and each child slot is occupied
/// exactly when its link names a claimed record, by the finished subtree
/// that record describes.
pub open spec fn partial_ok<V: LeafValue>(
    s: Seq<FlatNode<V>>,
    w: Seq<Option<Node<V>>>,
    i: int,
) -> bool {
    match w[i] {
        Some(node) => {
            &&& node.ty == s[i].ty
            &&& node.min_position == s[i].min_position
            &&& node.dimension == s[i].dimension
            &&& forall|slot: int|
                0 <= slot < 8 ==> {
                    let c = s[i].child_idx(slot);
                    &&& ((#[trigger] node.child(slot)) is Some <==> (c != 0 && 0 <= c < s.len()
                        && w[c] is None))
                    &&& (node.child(slot) is Some ==> tree_matches(
                        s,
                        c,
                        *node.child(slot).unwrap(),
                    ))
                }
        },
        None => true,
    }
}

/// Pushing a child entry for the current top preserves the stack
/// discipline.
proof fn lemma_stack_ok_push<V: LeafValue>(
    s: Seq<FlatNode<V>>,
    st0: Seq<(usize, usize, usize)>,
    st1: Seq<(usize, usize, usize)>,
    cur: usize,
    pend_c: usize,
    pend_slot: usize,
)
    requires
        stack_ok(s, st0),
        st0.len() >= 1,
        st0[st0.len() - 1].0 == cur,
        st1 == st0.push((pend_c, cur, pend_slot)),
        pend_slot < 8,
        s[cur as int].child_idx(pend_slot as int) == pend_c as int,
        pend_c != 0usize,
    ensures
        stack_ok(s, st1),
{
    assert forall|k_: int| 1 <= k_ < st1.len() implies #[trigger] stack_entry_ok(s, st1, k_) by {
        if k_ < st1.len() - 1 {
            assert(st1[k_] == st0[k_]);
            assert(st1[k_ - 1] == st0[k_ - 1]);
            assert(stack_entry_ok(s, st0, k_));
        } else {
            assert(st1[k_] == (pend_c, cur, pend_slot));
            assert(st1[k_ - 1] == st0[st0.len() - 1]);
        }
    };
}

/// Dropping the top entry preserves the stack discipline.
proof fn lemma_stack_ok_pop<V: LeafValue>(
    s: Seq<FlatNode<V>>,
    st0: Seq<(usize, usize, usize)>,
    st1: Seq<(usize, usize, usize)>,
)
    requires
        stack_ok(s, st0),
        st0.len() >= 1,
        st1 == st0.drop_last(),
    ensures
        stack_ok(s, st1),
{
    assert forall|k_: int| 1 <= k_ < st1.len() implies #[trigger] stack_entry_ok(s, st1, k_) by {
        assert(st1[k_] == st0[k_]);
        assert(st1[k_ - 1] == st0[k_ - 1]);
        assert(stack_entry_ok(s, st0, k_));
    };
}

/// The position about to be pushed already sits nowhere on the stack: its
/// unique claimer is the current top, whose only place is the top itself.
proof fn lemma_push_distinct<V: LeafValue>(
    s: Seq<FlatNode<V>>,
    st0: Seq<(usize, usize, usize)>,
    cur: usize,
    pend_c: usize,
    pend_slot: usize,
)
    requires
        snapshot_wf(s),
        stack_ok(s, st0),
        st0.len() >= 1,
        st0[0].0 == 0usize,
        forall|k1: int, k2: int|
            0 <= k1 < k2 < st0.len() ==> (#[trigger] st0[k1].0) != (#[trigger] st0[k2].0),
        forall|k_: int| 0 <= k_ < st0.len() ==> (#[trigger] st0[k_].0 as int) < s.len(),
        st0[st0.len() - 1].0 == cur,
        pend_slot < 8,
        (cur as int) < s.len(),
        s[cur as int].child_idx(pend_slot as int) == pend_c as int,
        pend_c != 0usize,
    ensures
        forall|k_: int| 0 <= k_ < st0.len() ==> (#[trigger] st0[k_].0) != pend_c,
{
    assert forall|k_: int| 0 <= k_ < st0.len() implies (#[trigger] st0[k_].0) != pend_c by {
        if st0[k_].0 == pend_c {
            if k_ >= 1 {
                assert(stack_entry_ok(s, st0, k_));
                assert(s[st0[k_].1 as int].child_idx(st0[k_].2 as int) == st0[k_].0 as int);
                assert(st0[k_].1 as int == cur as int && st0[k_].2 as int == pend_slot as int);
                assert(st0[k_ - 1].0 == st0[k_].1);
                if k_ - 1 < st0.len() - 1 {
                    assert(st0[k_ - 1].0 != st0[st0.len() - 1].0);
                }
                assert(false);
            } else {
                assert(st0[0].0 == 0usize);
                assert(false);
            }
        }
    };
}

/// Occupied entries never outnumber the list, and a set of stack entries
/// with pairwise distinct positions, each occupied, never outnumbers the
/// occupied entries.
pub proof fn lemma_count_somes_le_len<V: LeafValue>(w: Seq<Option<Node<V>>>)
    ensures
        count_somes(w) <= w.len(),
    decreases w.len(),
{
    if w.len() > 0 {
        lemma_count_somes_le_len(w.drop_last());
    }
}

/// Stack entries with pairwise distinct positions, each naming an occupied
/// record, are at most as many as the occupied records.
pub proof fn lemma_distinct_some_bounded<V: LeafValue>(
    w: Seq<Option<Node<V>>>,
    st: Seq<(usize, usize, usize)>,
)
    requires
        forall|k: int| 0 <= k < st.len() ==> (#[trigger] st[k].0 as int) < w.len(),
        forall|k1: int, k2: int|
            0 <= k1 < k2 < st.len() ==> (#[trigger] st[k1].0) != (#[trigger] st[k2].0),
        forall|k: int| 0 <= k < st.len() ==> w[#[trigger] st[k].0 as int] is Some,
    ensures
        st.len() <= count_somes(w),
    decreases st.len(),
{
    if st.len() == 0 {
        lemma_count_somes_nonneg(w);
    } else {
        let e = st.last();
        let w2 = w.update(e.0 as int, None);
        let st2 = st.drop_last();
        assert forall|k: int| 0 <= k < st2.len() implies (#[trigger] st2[k].0 as int) < w2.len()
            && w2[st2[k].0 as int] is Some by {
            assert(st2[k] == st[k]);
            assert(st[k].0 != e.0);
        };
        assert forall|k1: int, k2: int|
            0 <= k1 < k2 < st2.len() implies (#[trigger] st2[k1].0) != (#[trigger] st2[k2].0) by {
            assert(st2[k1] == st[k1] && st2[k2] == st[k2]);
        };
        lemma_distinct_some_bounded(w2, st2);
        lemma_count_somes_update(w, e.0 as int, None);
    }
}

/// One step of the breadth-first flattening keeps the loop's bookkeeping
/// intact: writing the head's finished record and appending its children to
/// the queue moves one record from the pending traversal into the finished
/// prefix.
#[verifier::rlimit(100)]
#[verifier::spinoff_prover]
pub proof fn lemma_serialize_step<V: LeafValue>(
    root: Node<V>,
    refs0: Seq<&Node<V>>,
    records0: Seq<FlatNode<V>>,
    refs1: Seq<&Node<V>>,
    records1: Seq<FlatNode<V>>,
    cur: int,
    rec: FlatNode<V>,
)
    requires
        0 <= cur < refs0.len(),
        records0.len() == refs0.len(),
        spec_flatten(root) == records0.subrange(0, cur) + spec_flatten_queue(
            pending_of(refs0, cur),
            cur,
        ),
        forall|j: int|
            cur <= j < refs0.len() ==> #[trigger] records0[j] == partial_record_of(*refs0[j]),
        rec == record_of(*refs0[cur], refs0.len() as int),
        refs1.len() == refs0.len() + present_before(*refs0[cur], 8),
        forall|j: int| 0 <= j < refs0.len() ==> refs1[j] == refs0[j],
        (*refs0[cur]).c0 is Some ==> *refs1[refs0.len() + present_before(*refs0[cur], 0)] == *(
        *refs0[cur]).c0.unwrap(),
        (*refs0[cur]).c1 is Some ==> *refs1[refs0.len() + present_before(*refs0[cur], 1)] == *(
        *refs0[cur]).c1.unwrap(),
        (*refs0[cur]).c2 is Some ==> *refs1[refs0.len() + present_before(*refs0[cur], 2)] == *(
        *refs0[cur]).c2.unwrap(),
        (*refs0[cur]).c3 is Some ==> *refs1[refs0.len() + present_before(*refs0[cur], 3)] == *(
        *refs0[cur]).c3.unwrap(),
        (*refs0[cur]).c4 is Some ==> *refs1[refs0.len() + present_before(*refs0[cur], 4)] == *(
        *refs0[cur]).c4.unwrap(),
        (*refs0[cur]).c5 is Some ==> *refs1[refs0.len() + present_before(*refs0[cur], 5)] == *(
        *refs0[cur]).c5.unwrap(),
        (*refs0[cur]).c6 is Some ==> *refs1[refs0.len() + present_before(*refs0[cur], 6)] == *(
        *refs0[cur]).c6.unwrap(),
        (*refs0[cur]).c7 is Some ==> *refs1[refs0.len() + present_before(*refs0[cur], 7)] == *(
        *refs0[cur]).c7.unwrap(),
        records1.len() == refs1.len(),
        forall|j: int| 0 <= j < records0.len() && j != cur ==> records1[j] == records0[j],
        records1[cur] == rec,
        forall|j: int|
            records0.len() <= j < records1.len() ==> records1[j] == partial_record_of(*refs1[j]),
    ensures
        spec_flatten(root) == records1.subrange(0, cur + 1) + spec_flatten_queue(
            pending_of(refs1, cur + 1),
            cur + 1,
        ),
        forall|j: int|
            cur + 1 <= j < refs1.len() ==> #[trigger] records1[j] == partial_record_of(*refs1[j]),
        total_count(pending_of(refs1, cur + 1)) == total_count(pending_of(refs0, cur)) - 1,
        total_count(pending_of(refs1, cur + 1)) >= 0,
{
    let n0 = *refs0[cur];
    let pending = pending_of(refs0, cur);
    let pending2 = pending_of(refs1, cur + 1);
    let next = refs0.len() as int;
    assert(pending.len() == refs0.len() - cur);
    assert(pending[0] == n0);
    lemma_children_list_index(n0);
    lemma_children_list_count(n0);
    lemma_count_nodes_pos(n0);
    lemma_total_count_concat(pending.drop_first(), children_list(n0));
    lemma_total_count_ge_len(pending.drop_first());
    lemma_total_count_ge_len(children_list(n0));
    assert(pending2 =~= pending.drop_first() + children_list(n0)) by {
        assert(pending2.len() == refs1.len() - cur - 1);
        assert(children_list(n0).len() == present_before(n0, 8));
        assert forall|j: int| 0 <= j < pending2.len() implies pending2[j] == (pending.drop_first()
            + children_list(n0))[j] by {
            if j < pending.len() - 1 {
                assert(refs1[cur + 1 + j] == refs0[cur + 1 + j]);
                assert(pending2[j] == pending.drop_first()[j]);
            } else {
                let k = j - (pending.len() - 1);
                assert(0 <= k < children_list(n0).len());
                assert(pending2[j] == *refs1[next + k]);
                assert(children_list(n0)[k] == *refs1[next + k]) by {
                    if k == present_before(n0, 0) && n0.c0 is Some {
                    }
                    if n0.c0 is Some && k == present_before(n0, 0) {
                        assert(children_list(n0)[k] == *n0.c0.unwrap());
                    } else if n0.c1 is Some && k == present_before(n0, 1) {
                        assert(children_list(n0)[k] == *n0.c1.unwrap());
                    } else if n0.c2 is Some && k == present_before(n0, 2) {
                        assert(children_list(n0)[k] == *n0.c2.unwrap());
                    } else if n0.c3 is Some && k == present_before(n0, 3) {
                        assert(children_list(n0)[k] == *n0.c3.unwrap());
                    } else if n0.c4 is Some && k == present_before(n0, 4) {
                        assert(children_list(n0)[k] == *n0.c4.unwrap());
                    } else if n0.c5 is Some && k == present_before(n0, 5) {
                        assert(children_list(n0)[k] == *n0.c5.unwrap());
                    } else if n0.c6 is Some && k == present_before(n0, 6) {
                        assert(children_list(n0)[k] == *n0.c6.unwrap());
                    } else if n0.c7 is Some && k == present_before(n0, 7) {
                        assert(children_list(n0)[k] == *n0.c7.unwrap());
                    } else {
                        assert(false);
                    }
                }
            }
        }
    };
    assert(spec_flatten_queue(pending, cur) == seq![record_of(n0, cur + pending.len())]
        + spec_flatten_queue(pending2, cur + 1));
    assert(next == cur + pending.len());
    assert(records1.subrange(0, cur + 1) =~= records0.subrange(0, cur).push(rec));
    assert(records1.subrange(0, cur + 1) + spec_flatten_queue(pending2, cur + 1)
        =~= records0.subrange(0, cur) + spec_flatten_queue(pending, cur));
    lemma_total_count_ge_len(pending2);
}

impl<V: LeafValue> Node<V> {
    /// Builds the record of `n` with every child link still unassigned.
    fn partial_record(n: &Node<V>) -> (r: FlatNode<V>)
        ensures
            r == partial_record_of(*n),
    {
        FlatNode {
            ty: n.ty,
            min_position: n.min_position,
            dimension: n.dimension,
            child0: 0,
            child1: 0,
            child2: 0,
            child3: 0,
            child4: 0,
            child5: 0,
            child6: 0,
            child7: 0,
        }
    }

    /// Queues one optional child: a present child is appended to the working
    /// list, and its future position returned; an absent child stays absent,
    /// marked 0.
    fn push_slot<'a>(
        c: &'a Option<Box<Node<V>>>,
        refs: &mut Vec<&'a Node<V>>,
        records: &mut Vec<FlatNode<V>>,
    ) -> (idx: usize)
        requires
            old(refs)@.len() == old(records)@.len(),
        ensures
            final(refs)@.len() == final(records)@.len(),
            c is None ==> {
                &&& final(refs)@ == old(refs)@
                &&& final(records)@ == old(records)@
                &&& idx == 0
            },
            c is Some ==> {
                &&& idx == old(refs)@.len()
                &&& final(refs)@.len() == old(refs)@.len() + 1
                &&& final(records)@.len() == old(records)@.len() + 1
                &&& (forall|j: int| 0 <= j < old(refs)@.len() ==> final(refs)@[j] == old(refs)@[j])
                &&& (forall|j: int|
                    0 <= j < old(records)@.len() ==> final(records)@[j] == old(records)@[j])
                &&& *final(refs)@[old(refs)@.len() as int] == *c.unwrap()
                &&& final(records)@[old(records)@.len() as int] == partial_record_of(*c.unwrap())
            },
    {
        match c {
            Some(b) => {
                let idx = refs.len();
                refs.push(&**b);
                records.push(Self::partial_record(&**b));
                idx
            },
            None => 0,
        }
    }

    /// Visits one node: emits its record, with the positions its present
    /// children will occupy, and appends those children to the working list.
    #[verifier::rlimit(100)]
    #[verifier::spinoff_prover]
    fn serialize_step<'a>(
        node: &'a Node<V>,
        refs: &mut Vec<&'a Node<V>>,
        records: &mut Vec<FlatNode<V>>,
    ) -> (rec: FlatNode<V>)
        requires
            old(refs)@.len() == old(records)@.len(),
        ensures
            rec == record_of(*node, old(refs)@.len() as int),
            final(refs)@.len() == old(refs)@.len() + present_before(*node, 8),
            final(records)@.len() == final(refs)@.len(),
            forall|j: int| 0 <= j < old(refs)@.len() ==> final(refs)@[j] == old(refs)@[j],
            forall|j: int| 0 <= j < old(records)@.len() ==> final(records)@[j] == old(records)@[j],
            forall|j: int|
                old(records)@.len() <= j < final(records)@.len() ==> #[trigger] final(records)@[j]
                    == partial_record_of(*final(refs)@[j]),
            node.c0 is Some ==> *final(refs)@[old(refs)@.len() + present_before(*node, 0)]
                == *node.c0.unwrap(),
            node.c1 is Some ==> *final(refs)@[old(refs)@.len() + present_before(*node, 1)]
                == *node.c1.unwrap(),
            node.c2 is Some ==> *final(refs)@[old(refs)@.len() + present_before(*node, 2)]
                == *node.c2.unwrap(),
            node.c3 is Some ==> *final(refs)@[old(refs)@.len() + present_before(*node, 3)]
                == *node.c3.unwrap(),
            node.c4 is Some ==> *final(refs)@[old(refs)@.len() + present_before(*node, 4)]
                == *node.c4.unwrap(),
            node.c5 is Some ==> *final(refs)@[old(refs)@.len() + present_before(*node, 5)]
                == *node.c5.unwrap(),
            node.c6 is Some ==> *final(refs)@[old(refs)@.len() + present_before(*node, 6)]
                == *node.c6.unwrap(),
            node.c7 is Some ==> *final(refs)@[old(refs)@.len() + present_before(*node, 7)]
                == *node.c7.unwrap(),
    {
        let ghost next = refs@.len() as int;
        let ghost n0 = *node;
        let mut rec = Self::partial_record(node);
        rec.child0 = Self::push_slot(&node.c0, refs, records);
        proof {
            assert(refs@.len() == next + present_before(n0, 1));
        }
        rec.child1 = Self::push_slot(&node.c1, refs, records);
        proof {
            assert(refs@.len() == next + present_before(n0, 2));
        }
        rec.child2 = Self::push_slot(&node.c2, refs, records);
        proof {
            assert(refs@.len() == next + present_before(n0, 3));
        }
        rec.child3 = Self::push_slot(&node.c3, refs, records);
        proof {
            assert(refs@.len() == next + present_before(n0, 4));
        }
        rec.child4 = Self::push_slot(&node.c4, refs, records);
        proof {
            assert(refs@.len() == next + present_before(n0, 5));
        }
        rec.child5 = Self::push_slot(&node.c5, refs, records);
        proof {
            assert(refs@.len() == next + present_before(n0, 6));
        }
        rec.child6 = Self::push_slot(&node.c6, refs, records);
        proof {
            assert(refs@.len() == next + present_before(n0, 7));
        }
        rec.child7 = Self::push_slot(&node.c7, refs, records);
        proof {
            assert(refs@.len() == next + present_before(n0, 8));
            assert(rec == record_of(n0, next));
        }
        rec
    }

    /// Decides whether a record list is a well-formed snapshot: checks every
    /// child link for range, and uses a claim table to refuse any record
    /// claimed as a child twice.
    #[verifier::rlimit(100)]
    #[verifier::spinoff_prover]
    fn check_snapshot(records: &Vec<FlatNode<V>>) -> (ok: bool)
        ensures
            ok == snapshot_wf(records@),
    {
        let n = records.len();
        if n == 0 {
            return false;
        }
        let mut seen: Vec<bool> = Vec::new();
        let mut k: usize = 0;
        while k < n
            invariant
                seen@.len() == k,
                k <= n,
                forall|c: int| 0 <= c < k ==> #[trigger] seen@[c] == false,
            decreases n - k,
        {
            seen.push(false);
            k += 1;
        }
        let mut i: usize = 0;
        while i < n
            invariant
                n == records@.len(),
                n >= 1,
                seen@.len() == n,
                i <= n,
                forall|i_: int, s_: int|
                    0 <= i_ < n && 0 <= s_ < 8 && lex_before(i_, s_, i as int, 0) ==> (
                    #[trigger] records@[i_].child_idx(s_) == 0 || (0 < records@[i_].child_idx(s_)
                        && records@[i_].child_idx(s_) < n)),
                forall|c: int|
                    0 <= c < n ==> ((#[trigger] seen@[c]) <==> exists|i_: int, s_: int|
                        0 <= i_ < n && 0 <= s_ < 8 && lex_before(i_, s_, i as int, 0)
                            && #[trigger] records@[i_].child_idx(s_) == c && c != 0),
                forall|i1: int, s1: int, i2: int, s2: int|
                    0 <= i1 < n && 0 <= s1 < 8 && 0 <= i2 < n && 0 <= s2 < 8 && lex_before(
                        i1,
                        s1,
                        i as int,
                        0,
                    ) && lex_before(i2, s2, i as int, 0) && #[trigger] records@[i1].child_idx(s1)
                        == #[trigger] records@[i2].child_idx(s2) && records@[i1].child_idx(s1)
                        != 0 ==> (i1 == i2 && s1 == s2),
            decreases n - i,
        {
            let mut slot: usize = 0;
            while slot < 8
                invariant
                    n == records@.len(),
                    n >= 1,
                    seen@.len() == n,
                    i < n,
                    slot <= 8,
                    forall|i_: int, s_: int|
                        0 <= i_ < n && 0 <= s_ < 8 && lex_before(i_, s_, i as int, slot as int)
                            ==> (#[trigger] records@[i_].child_idx(s_) == 0 || (0
                            < records@[i_].child_idx(s_) && records@[i_].child_idx(s_) < n)),
                    forall|c: int|
                        0 <= c < n ==> ((#[trigger] seen@[c]) <==> exists|i_: int, s_: int|
                            0 <= i_ < n && 0 <= s_ < 8 && lex_before(i_, s_, i as int, slot as int)
                                && #[trigger] records@[i_].child_idx(s_) == c && c != 0),
                    forall|i1: int, s1: int, i2: int, s2: int|
                        0 <= i1 < n && 0 <= s1 < 8 && 0 <= i2 < n && 0 <= s2 < 8 && lex_before(
                            i1,
                            s1,
                            i as int,
                            slot as int,
                        ) && lex_before(i2, s2, i as int, slot as int)
                            && #[trigger] records@[i1].child_idx(s1)
                            == #[trigger] records@[i2].child_idx(s2) && records@[i1].child_idx(s1)
                            != 0 ==> (i1 == i2 && s1 == s2),
                decreases 8 - slot,
            {
                let c = records[i].get_child_idx(slot);
                if c != 0 {
                    if !(c < n) {
                        proof {
                            if snapshot_wf(records@) {
                                assert(records@[i as int].child_idx(slot as int) == 0 || (0
                                    < records@[i as int].child_idx(slot as int) && records@[
                                i as int].child_idx(slot as int) < n));
                                assert(false);
                            }
                        }
                        return false;
                    }
                    if seen[c] {
                        proof {
                            let (i_, s_): (int, int) = choose|i_: int, s_: int|
                                0 <= i_ < n && 0 <= s_ < 8 && lex_before(
                                    i_,
                                    s_,
                                    i as int,
                                    slot as int,
                                ) && #[trigger] records@[i_].child_idx(s_) == c && c != 0;
                            if snapshot_wf(records@) {
                                assert(records@[i_].child_idx(s_) == records@[i as int].child_idx(
                                    slot as int,
                                ));
                                assert(i_ == i as int && s_ == slot as int);
                                assert(false);
                            }
                        }
                        return false;
                    }
                    seen[c] = true;
                    proof {
                        assert(records@[i as int].child_idx(slot as int) == c && c != 0
                            && lex_before(i as int, slot as int, i as int, slot + 1));
                    }
                }
                proof {
                    assert(forall|i_: int, s_: int|
                        0 <= i_ < n && 0 <= s_ < 8 && lex_before(i_, s_, i as int, slot + 1) ==> (
                        lex_before(i_, s_, i as int, slot as int) || (i_ == i as int && s_
                            == slot as int)));
                }
                slot += 1;
            }
            proof {
                assert(forall|i_: int, s_: int|
                    0 <= s_ < 8 ==> (lex_before(i_, s_, i as int, 8) == lex_before(
                        i_,
                        s_,
                        i as int + 1,
                        0,
                    )));
            }
            i += 1;
        }
        proof {
            assert(forall|i_: int, s_: int|
                0 <= i_ < n && 0 <= s_ < 8 ==> lex_before(i_, s_, n as int, 0));
            assert(snapshot_wf(records@));
        }
        true
    }

    /// Flattens the subtree into a breadth-first list of records linked by
    /// list positions.
    ///
    /// The root sits at position 0; each visited node's present children are
    /// appended to the end of the working list, and the positions they will
    /// occupy are written into the visited node's record. A child link of 0
    /// marks an absent child, position 0 being the root's and never a
    /// child's.
    #[verifier::rlimit(100)]
    #[verifier::spinoff_prover]
    pub fn serialize(&self) -> (out: Vec<FlatNode<V>>)
        ensures
            out@ == spec_flatten(*self),
    {
        let mut refs: Vec<&Node<V>> = Vec::new();
        let mut records: Vec<FlatNode<V>> = Vec::new();
        refs.push(self);
        records.push(Self::partial_record(self));
        proof {
            assert(pending_of(refs@, 0) =~= seq![*self]);
            lemma_total_count_ge_len(pending_of(refs@, 0));
        }
        let mut cur: usize = 0;
        while cur < refs.len()
            invariant
                records@.len() == refs@.len(),
                cur <= refs@.len(),
                spec_flatten(*self) == records@.subrange(0, cur as int) + spec_flatten_queue(
                    pending_of(refs@, cur as int),
                    cur as int,
                ),
                forall|j: int|
                    cur <= j < refs@.len() ==> #[trigger] records@[j] == partial_record_of(
                        *refs@[j],
                    ),
            decreases total_count(pending_of(refs@, cur as int)),
        {
            let ghost refs0 = refs@;
            let ghost records0 = records@;
            let node: &Node<V> = refs[cur];
            proof {
                assert(pending_of(refs0, cur as int)[0] == *node);
            }
            let rec = Self::serialize_step(node, &mut refs, &mut records);
            records[cur] = rec;
            proof {
                lemma_serialize_step(*self, refs0, records0, refs@, records@, cur as int, rec);
            }
            cur = cur + 1;
        }
        proof {
            assert(pending_of(refs@, cur as int).len() == 0);
            assert(spec_flatten_queue(pending_of(refs@, cur as int), cur as int)
                == Seq::<FlatNode<V>>::empty());
            assert(records@.subrange(0, cur as int) =~= records@);
            assert(records@ + Seq::<FlatNode<V>>::empty() =~= records@);
        }
        records
    }

    /// Builds up the node structure from a flattened snapshot.
    ///
    /// The snapshot is validated first: a list with no root record, a child
    /// link out of range, or a record claimed by two parents is refused as
    /// malformed. The records may otherwise sit in any order: a child may
    /// come before or after its parent in the list. Rebuilding then runs on
    /// an explicit work stack of (position, parent position, parent slot)
    /// entries, so that the depth of the encoded tree never burdens the
    /// call stack: the top entry descends into its first unbuilt child, and
    /// once all children of the top entry are attached, its node is moved
    /// into its parent's slot. Records not linked into the root's tree are
    /// never visited and are simply dropped.
    #[verifier::rlimit(100)]
    #[verifier::spinoff_prover]
    pub fn deserialize(records: Vec<FlatNode<V>>) -> (r: Result<Node<V>, Error>)
        ensures
            match r {
                Ok(t) => snapshot_wf(records@) && tree_matches(records@, 0, t),
                Err(e) => {
                    &&& !snapshot_wf(records@)
                    &&& e == Error::MalformedTree
                },
            },
    {
        if !Self::check_snapshot(&records) {
            return Err(Error::MalformedTree);
        }
        let ghost s = records@;
        let n = records.len();
        let mut work: Vec<Option<Node<V>>> = Vec::new();
        let mut k: usize = 0;
        while k < n
            invariant
                work@.len() == k,
                k <= n,
                n == records@.len(),
                forall|j: int| 0 <= j < k ==> #[trigger] work@[j] == Some(shell_of(records@[j])),
            decreases n - k,
        {
            let rec = records[k];
            work.push(
                Some(
                    Node {
                        ty: rec.ty,
                        min_position: rec.min_position,
                        dimension: rec.dimension,
                        c0: None,
                        c1: None,
                        c2: None,
                        c3: None,
                        c4: None,
                        c5: None,
                        c6: None,
                        c7: None,
                    },
                ),
            );
            k += 1;
        }
        proof {
            assert forall|j: int| 0 <= j < n implies #[trigger] partial_ok(s, work@, j) by {
                assert(work@[j] == Some(shell_of(s[j])));
                assert(forall|slot: int|
                    0 <= slot < 8 ==> #[trigger] shell_of(s[j]).child(slot) is None);
            };
        }
        let mut stack: Vec<(usize, usize, usize)> = Vec::new();
        stack.push((0, 0, 0));
        let ghost mut root_done: bool = false;
        while stack.len() > 0
            invariant
                n == records@.len(),
                n >= 1,
                s == records@,
                snapshot_wf(s),
                work@.len() == n,
                stack@.len() <= n,
                stack@.len() >= 1 ==> stack@[0] == (0usize, 0usize, 0usize),
                forall|k1: int, k2: int|
                    0 <= k1 < k2 < stack@.len() ==> (#[trigger] stack@[k1].0) != (
                    #[trigger] stack@[k2].0),
                forall|k_: int| 0 <= k_ < stack@.len() ==> (#[trigger] stack@[k_].0 as int) < n,
                stack_ok(records@, stack@),
                forall|k_: int|
                    0 <= k_ < stack@.len() ==> #[trigger] work@[stack@[k_].0 as int] is Some,
                forall|j: int| 0 <= j < n ==> #[trigger] partial_ok(s, work@, j),
                root_done <==> stack@.len() == 0,
                stack@.len() == 0 ==> (work@[0] is Some && tree_matches(s, 0, work@[0].unwrap())),
            decreases
                    count_somes(work@) + (if root_done {
                        0int
                    } else {
                        1int
                    }),
                    n - stack@.len(),
        {
            proof {
                lemma_count_somes_nonneg(work@);
            }
            let top = stack[stack.len() - 1];
            let cur = top.0;
            let par = top.1;
            let pslot = top.2;
            let mut slot: usize = 0;
            let mut have = false;
            let mut pend_c: usize = 0;
            let mut pend_slot: usize = 0;
            while slot < 8
                invariant
                    cur < n,
                    n == records@.len(),
                    work@.len() == n,
                    slot <= 8,
                    work@[cur as int] is Some,
                    !have ==> forall|s_: int|
                        0 <= s_ < slot ==> #[trigger] slot_done(records@, work@, cur as int, s_),
                    have ==> {
                        &&& pend_slot < slot && pend_slot < 8
                        &&& (forall|s_: int|
                            0 <= s_ < pend_slot ==> #[trigger] slot_done(
                                records@,
                                work@,
                                cur as int,
                                s_,
                            ))
                        &&& !slot_done(records@, work@, cur as int, pend_slot as int)
                        &&& pend_c as int == records@[cur as int].child_idx(pend_slot as int)
                        &&& pend_c != 0usize
                    },
                decreases 8 - slot,
            {
                if !have {
                    let c = records[cur].get_child_idx(slot);
                    if c != 0 {
                        let occupied = match &work[cur] {
                            Some(nd) => nd.child_ref(slot).is_some(),
                            None => {
                                proof {
                                    assert(false);
                                }
                                true
                            },
                        };
                        if !occupied {
                            have = true;
                            pend_c = c;
                            pend_slot = slot;
                        }
                    }
                }
                slot += 1;
            }
            if have {
                proof {
                    assert(0 < pend_c as int && (pend_c as int) < n);
                    assert(work@[pend_c as int] is Some) by {
                        if work@[pend_c as int] is None {
                            assert(partial_ok(s, work@, cur as int));
                            assert(slot_done(s, work@, cur as int, pend_slot as int));
                            assert(false);
                        }
                    };
                }
                let ghost st0 = stack@;
                stack.push((pend_c, cur, pend_slot));
                proof {
                    assert(st0[st0.len() - 1].0 == cur);
                    lemma_stack_ok_push(records@, st0, stack@, cur, pend_c, pend_slot);
                    lemma_push_distinct(records@, st0, cur, pend_c, pend_slot);
                    assert forall|k1: int, k2: int|
                        0 <= k1 < k2 < stack@.len() implies (#[trigger] stack@[k1].0) != (
                    #[trigger] stack@[k2].0) by {
                        if k2 < stack@.len() - 1 {
                            assert(stack@[k1] == st0[k1] && stack@[k2] == st0[k2]);
                        } else {
                            assert(stack@[k2] == (pend_c, cur, pend_slot));
                            assert(stack@[k1] == st0[k1]);
                        }
                    };
                    assert forall|k_: int|
                        0 <= k_ < stack@.len() implies #[trigger] work@[stack@[k_].0 as int]
                        is Some by {
                        if k_ < stack@.len() - 1 {
                            assert(stack@[k_] == st0[k_]);
                        } else {
                            assert(stack@[k_].0 == pend_c);
                        }
                    };
                    lemma_distinct_some_bounded(work@, stack@);
                    lemma_count_somes_le_len(work@);
                }
            } else if cur != 0 {
                let ghost w0 = work@;
                let ghost stack0 = stack@;
                let node_opt = work[cur].take();
                let node = match node_opt {
                    Some(nd) => nd,
                    None => {
                        proof {
                            assert(false);
                        }
                        return Err(Error::MalformedTree);
                    },
                };
                proof {
                    assert(partial_ok(s, w0, cur as int));
                    assert(tree_matches(s, cur as int, node)) by {
                        assert forall|slot_: int| 0 <= slot_ < 8 implies match #[trigger] node.child(
                            slot_,
                        ) {
                            Some(ch) => {
                                &&& s[cur as int].child_idx(slot_) != 0
                                &&& 0 < s[cur as int].child_idx(slot_) < s.len()
                                &&& tree_matches(s, s[cur as int].child_idx(slot_), *ch)
                            },
                            None => s[cur as int].child_idx(slot_) == 0,
                        } by {
                            let c = s[cur as int].child_idx(slot_);
                            assert(slot_done(s, w0, cur as int, slot_));
                            match node.child(slot_) {
                                Some(ch) => {
                                    assert(c != 0 && 0 <= c < s.len());
                                    assert(*node.child(slot_).unwrap() == *ch);
                                },
                                None => {},
                            }
                        };
                    };
                    assert(stack@.len() >= 2) by {
                        if stack@.len() == 1 {
                            assert(stack@[0].0 == 0usize);
                            assert(false);
                        }
                    };
                    assert(stack_entry_ok(s, stack@, stack@.len() - 1));
                    assert(par as int == stack@[stack@.len() - 2].0 as int);
                    assert(par != cur) by {
                        assert(stack@[stack@.len() - 2].0 != stack@[stack@.len() - 1].0);
                    };
                    assert(work@[par as int] is Some);
                }
                let parent_opt = work[par].take();
                let mut parent = match parent_opt {
                    Some(nd) => nd,
                    None => {
                        proof {
                            assert(false);
                        }
                        return Err(Error::MalformedTree);
                    },
                };
                parent.set_child(pslot, Some(Box::new(node)));
                work[par] = Some(parent);
                let _ = stack.pop();
                proof {
                    assert(stack@ =~= stack0.drop_last());
                    lemma_stack_ok_pop(records@, stack0, stack@);
                }
                proof {
                    let w2 = work@;
                    assert(w2 =~= w0.update(cur as int, None).update(
                        par as int,
                        Some(parent),
                    ));
                    lemma_count_somes_update(w0, cur as int, None);
                    lemma_count_somes_update(
                        w0.update(cur as int, None),
                        par as int,
                        Some(parent),
                    );
                    assert(records@[par as int].child_idx(pslot as int) == cur as int);
                    assert forall|j: int| 0 <= j < n implies #[trigger] partial_ok(s, w2, j) by {
                        assert(partial_ok(s, w0, j));
                        if j == par {
                            assert(parent.ty == s[j].ty && parent.min_position
                                == s[j].min_position && parent.dimension == s[j].dimension);
                            assert forall|slot_: int| 0 <= slot_ < 8 implies {
                                let c = s[j].child_idx(slot_);
                                &&& ((#[trigger] parent.child(slot_)) is Some <==> (c != 0 && 0
                                    <= c < s.len() && w2[c] is None))
                                &&& (parent.child(slot_) is Some ==> tree_matches(
                                    s,
                                    c,
                                    *parent.child(slot_).unwrap(),
                                ))
                            } by {
                                let c = s[j].child_idx(slot_);
                                if slot_ == pslot as int {
                                    assert(parent.child(slot_) == Some(Box::new(node)));
                                    assert(c == cur as int);
                                    assert(w2[c] is None);
                                } else {
                                    assert(parent.child(slot_) == w0[j].unwrap().child(slot_));
                                    if c != 0 && 0 <= c < s.len() {
                                        if c == cur as int {
                                            assert(s[par as int].child_idx(pslot as int) == s[
                                            j].child_idx(slot_));
                                            assert(false);
                                        }
                                        assert(w2[c] is None <==> w0[c] is None);
                                    }
                                }
                            };
                        } else if w2[j] is Some {
                            let nd = w2[j].unwrap();
                            assert(w2[j] == w0[j]);
                            assert forall|slot_: int| 0 <= slot_ < 8 implies {
                                let c = s[j].child_idx(slot_);
                                &&& ((#[trigger] nd.child(slot_)) is Some <==> (c != 0 && 0 <= c
                                    < s.len() && w2[c] is None))
                                &&& (nd.child(slot_) is Some ==> tree_matches(
                                    s,
                                    c,
                                    *nd.child(slot_).unwrap(),
                                ))
                            } by {
                                let c = s[j].child_idx(slot_);
                                if c != 0 && 0 <= c < s.len() {
                                    if c == cur as int {
                                        assert(s[par as int].child_idx(pslot as int) == s[
                                        j].child_idx(slot_));
                                        assert(false);
                                    }
                                    assert(w2[c] is None <==> w0[c] is None);
                                }
                            };
                        }
                    };
                    lemma_count_somes_nonneg(w2);
                }
            } else {
                let ghost w0 = work@;
                proof {
                    assert(stack@.len() == 1) by {
                        if stack@.len() >= 2 {
                            assert(stack@[0].0 != stack@[stack@.len() - 1].0);
                            assert(false);
                        }
                    };
                    assert(partial_ok(s, w0, 0));
                    match w0[0] {
                        Some(node) => {
                            assert(tree_matches(s, 0, node)) by {
                                assert forall|slot_: int|
                                    0 <= slot_ < 8 implies match #[trigger] node.child(slot_) {
                                    Some(ch) => {
                                        &&& s[0].child_idx(slot_) != 0
                                        &&& 0 < s[0].child_idx(slot_) < s.len()
                                        &&& tree_matches(s, s[0].child_idx(slot_), *ch)
                                    },
                                    None => s[0].child_idx(slot_) == 0,
                                } by {
                                    let c = s[0].child_idx(slot_);
                                    assert(slot_done(s, w0, 0, slot_));
                                    match node.child(slot_) {
                                        Some(ch) => {
                                            assert(c != 0 && 0 <= c < s.len());
                                            assert(*node.child(slot_).unwrap() == *ch);
                                        },
                                        None => {},
                                    }
                                };
                            };
                        },
                        None => {
                            assert(false);
                        },
                    }
                    root_done = true;
                }
                let _ = stack.pop();
                proof {
                    assert(stack@.len() == 0);
                    assert(stack_ok(records@, stack@));
                }
            }
        }
        let root_opt = work[0].take();
        match root_opt {
            Some(t) => Ok(t),
            None => {
                proof {
                    assert(false);
                }
                Err(Error::MalformedTree)
            },
        }
    }
}

} // verus!
