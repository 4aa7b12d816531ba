use vstd::prelude::*;
use crate::huffman_node::HuffmanNode;

verus! {

/// The leaf frequencies of all the trees of a forest.
pub open spec fn forest_freqs(q: Seq<Box<HuffmanNode>>) -> Map<char, nat>
    decreases q.len(),
{
    if q.len() == 0 {
        Map::empty()
    } else {
        forest_freqs(q.drop_last()).union_prefer_right(q.last().leaf_freqs())
    }
}

/// The sum of the root frequencies of a forest.
pub open spec fn forest_total(q: Seq<Box<HuffmanNode>>) -> int
    decreases q.len(),
{
    if q.len() == 0 {
        0
    } else {
        forest_total(q.drop_last()) + q.last().frequency
    }
}

/// Every tree is well formed and no character stands in two trees.
pub open spec fn forest_ok(q: Seq<Box<HuffmanNode>>) -> bool {
    &&& forall|i: int| 0 <= i < q.len() ==> (#[trigger] q[i]).well_formed()
    &&& forall|i: int, j: int|
        0 <= i < q.len() && 0 <= j < q.len() && i != j ==> (#[trigger] q[i]).leaf_freqs().dom().disjoint(
            (#[trigger] q[j]).leaf_freqs().dom(),
        )
}

/// A well-formed tree has at least one leaf.
pub proof fn lemma_leaves_nonempty(t: HuffmanNode)
    requires
        t.well_formed(),
    ensures
        exists|c: char| t.leaf_freqs().contains_key(c),
    decreases t,
{
    match t.character {
        Some(c) => {
            assert(t.leaf_freqs().contains_key(c));
        },
        None => {
            let r = *t.right->Some_0;
            lemma_leaves_nonempty(r);
            let c = choose|c: char| r.leaf_freqs().contains_key(c);
            assert(t.leaf_freqs().contains_key(c));
        },
    }
}

pub proof fn lemma_forest_dom(q: Seq<Box<HuffmanNode>>, c: char)
    ensures
        forest_freqs(q).contains_key(c) <==> exists|k: int|
            0 <= k < q.len() && (#[trigger] q[k]).leaf_freqs().contains_key(c),
    decreases q.len(),
{
    if q.len() > 0 {
        let d = q.drop_last();
        lemma_forest_dom(d, c);
        if forest_freqs(q).contains_key(c) {
            if !q.last().leaf_freqs().contains_key(c) {
                let k = choose|k: int| 0 <= k < d.len() && (#[trigger] d[k]).leaf_freqs().contains_key(c);
                assert(q[k] == d[k]);
            } else {
                assert(q[q.len() - 1].leaf_freqs().contains_key(c));
            }
        }
        if exists|k: int| 0 <= k < q.len() && (#[trigger] q[k]).leaf_freqs().contains_key(c) {
            let k = choose|k: int| 0 <= k < q.len() && (#[trigger] q[k]).leaf_freqs().contains_key(c);
            if k < q.len() - 1 {
                assert(d[k] == q[k]);
            }
        }
    }
}

pub proof fn lemma_forest_total_nonneg(q: Seq<Box<HuffmanNode>>)
    ensures
        forest_total(q) >= 0,
    decreases q.len(),
{
    if q.len() > 0 {
        lemma_forest_total_nonneg(q.drop_last());
    }
}

/// Taking one tree out of a forest takes out its leaves and its frequency.
pub proof fn lemma_forest_remove(q: Seq<Box<HuffmanNode>>, i: int)
    requires
        forest_ok(q),
        0 <= i < q.len(),
    ensures
        forest_ok(q.remove(i)),
        forest_freqs(q) == forest_freqs(q.remove(i)).union_prefer_right(q[i].leaf_freqs()),
        forest_freqs(q.remove(i)).dom().disjoint(q[i].leaf_freqs().dom()),
        forest_total(q) == forest_total(q.remove(i)) + q[i].frequency,
    decreases q.len(),
{
    let r = q.remove(i);
    assert forall|c: char| forest_freqs(r).contains_key(c) implies !q[i].leaf_freqs().contains_key(c) by {
        lemma_forest_dom(r, c);
        let k = choose|k: int| 0 <= k < r.len() && (#[trigger] r[k]).leaf_freqs().contains_key(c);
        if k < i {
            assert(r[k] == q[k]);
        } else {
            assert(r[k] == q[k + 1]);
        }
    }
    if i == q.len() - 1 {
        assert(r =~= q.drop_last());
    } else {
        let d = q.drop_last();
        assert(forest_ok(d)) by {
            assert forall|a: int| 0 <= a < d.len() implies (#[trigger] d[a]).well_formed() by {
                assert(d[a] == q[a]);
            }
            assert forall|a: int, b: int|
                0 <= a < d.len() && 0 <= b < d.len() && a != b implies (#[trigger] d[a]).leaf_freqs().dom().disjoint(
                (#[trigger] d[b]).leaf_freqs().dom()) by {
                assert(d[a] == q[a] && d[b] == q[b]);
            }
        }
        lemma_forest_remove(d, i);
        assert(r.drop_last() =~= d.remove(i));
        assert(r.last() == q.last());
        assert(q[i].leaf_freqs().dom().disjoint(q[q.len() - 1].leaf_freqs().dom()));
        assert(forest_freqs(q) =~= forest_freqs(r).union_prefer_right(q[i].leaf_freqs()));
    }
}

/// The index of the first tree of least frequency among the first `n` trees.
pub open spec fn first_min(q: Seq<Box<HuffmanNode>>, n: int) -> int
    decreases n,
{
    if n <= 1 {
        0
    } else {
        let m = first_min(q, n - 1);
        if q[n - 1].frequency < q[m].frequency {
            n - 1
        } else {
            m
        }
    }
}

/// One greedy merge: the first tree of least frequency is taken out, then the
/// first tree of least frequency among the rest, and a node with the first on
/// the left and the second on the right goes at the end of the queue.
pub open spec fn merge_step(q: Seq<Box<HuffmanNode>>) -> Seq<Box<HuffmanNode>> {
    let ia = first_min(q, q.len() as int);
    let a = q[ia];
    let q1 = q.remove(ia);
    let ib = first_min(q1, q1.len() as int);
    let b = q1[ib];
    q1.remove(ib).push(
        Box::new(
            HuffmanNode {
                character: None,
                frequency: (a.frequency + b.frequency) as u32,
                left: Some(a),
                right: Some(b),
            },
        ),
    )
}

/// The tree left when greedy merges run until one tree remains; `None` for
/// an empty queue.
pub open spec fn greedy(q: Seq<Box<HuffmanNode>>) -> Option<Box<HuffmanNode>>
    decreases q.len(),
    via greedy_decreases
{
    if q.len() == 0 {
        None
    } else if q.len() == 1 {
        Some(q[0])
    } else {
        greedy(merge_step(q))
    }
}

#[via_fn]
proof fn greedy_decreases(q: Seq<Box<HuffmanNode>>) {
    if q.len() > 1 {
        lemma_merge_step_len(q);
    }
}

/// A greedy merge leaves one tree fewer.
pub proof fn lemma_merge_step_len(q: Seq<Box<HuffmanNode>>)
    requires
        q.len() > 1,
    ensures
        merge_step(q).len() == q.len() - 1,
{
    lemma_first_min_bounds(q, q.len() as int);
    let q1 = q.remove(first_min(q, q.len() as int));
    lemma_first_min_bounds(q1, q1.len() as int);
}

/// One leaf for each entry, in the order of the entries.
pub open spec fn leaves_of(e: Seq<(char, u32)>) -> Seq<Box<HuffmanNode>> {
    e.map_values(
        |p: (char, u32)| Box::new(HuffmanNode { character: Some(p.0), frequency: p.1, left: None, right: None }),
    )
}

proof fn lemma_first_min_bounds(q: Seq<Box<HuffmanNode>>, n: int)
    requires
        1 <= n <= q.len(),
    ensures
        0 <= first_min(q, n) < n,
        forall|k: int| 0 <= k < n ==> q[first_min(q, n)].frequency <= (#[trigger] q[k]).frequency,
    decreases n,
{
    if n > 1 {
        lemma_first_min_bounds(q, n - 1);
    }
}

/// The index of the first tree of least frequency.
pub fn min_index(q: &Vec<Box<HuffmanNode>>) -> (r: usize)
    requires
        q@.len() > 0,
    ensures
        r < q@.len(),
        r == first_min(q@, q@.len() as int),
        forall|k: int| 0 <= k < q@.len() ==> q@[r as int].frequency <= q@[k].frequency,
{
    let mut best: usize = 0;
    let mut i: usize = 1;
    proof {
        lemma_first_min_bounds(q@, 1);
    }
    while i < q.len()
        invariant
            0 <= best < i <= q@.len(),
            best == first_min(q@, i as int),
        decreases q@.len() - i,
    {
        if q[i].frequency < q[best].frequency {
            best = i;
        }
        i = i + 1;
    }
    proof {
        lemma_first_min_bounds(q@, q@.len() as int);
    }
    best
}

} // verus!
