//! Building a Huffman tree by repeatedly merging the two lightest nodes.

use crate::frequency::{
    count, distinct_keys, frequency_entries, keys_of, lemma_occurrences_contains, occurrence_map,
    total_of, FrequencyTable,
};
use crate::tree::{prefixed, symbols, CodeTable, HuffmanNode, HuffmanNodeType, HuffmanTree};
use vstd::multiset::Multiset;
use vstd::prelude::*;

verus! {

/// Each leaf below `node` carries the frequency that `m` gives its symbol.
pub open spec fn leaf_weights(node: &HuffmanNode, m: Map<char, nat>) -> bool
    decreases node,
{
    match &node.kind {
        HuffmanNodeType::Leaf(c) => m.contains_key(*c) && node.frequency == m[*c],
        HuffmanNodeType::Parent(l, r) => leaf_weights(l, m) && leaf_weights(r, m),
    }
}

/// The symbols at the leaves of all nodes of a queue.
pub open spec fn queue_leaves(q: Seq<HuffmanNode>) -> Multiset<char>
    decreases q.len(),
{
    if q.len() == 0 {
        Multiset::empty()
    } else {
        queue_leaves(q.drop_last()).add(q.last().leaves().to_multiset())
    }
}

/// The sum of the frequencies of the nodes of a queue.
pub open spec fn queue_weight(q: Seq<HuffmanNode>) -> nat
    decreases q.len(),
{
    if q.len() == 0 {
        0
    } else {
        queue_weight(q.drop_last()) + q.last().frequency as nat
    }
}

proof fn lemma_queue_remove(q: Seq<HuffmanNode>, i: int)
    requires
        0 <= i < q.len(),
    ensures
        queue_leaves(q) == queue_leaves(q.remove(i)).add(q[i].leaves().to_multiset()),
        queue_weight(q) == queue_weight(q.remove(i)) + q[i].frequency as nat,
    decreases q.len(),
{
    broadcast use vstd::multiset::group_multiset_axioms;

    if i == q.len() - 1 {
        assert(q.remove(i) =~= q.drop_last());
    } else {
        lemma_queue_remove(q.drop_last(), i);
        assert(q.remove(i).drop_last() =~= q.drop_last().remove(i));
        assert(q.remove(i).last() == q.last());
        let a = queue_leaves(q.drop_last().remove(i));
        let b = q[i].leaves().to_multiset();
        let c = q.last().leaves().to_multiset();
        assert(a.add(b).add(c) =~= a.add(c).add(b));
    }
}

proof fn lemma_symbols_prefixed(t: CodeTable, p: Seq<bool>)
    ensures
        symbols(prefixed(t, p)) == symbols(t),
{
    assert(symbols(prefixed(t, p)) =~= symbols(t));
}

proof fn lemma_parent_leaves(node: &HuffmanNode, l: &HuffmanNode, r: &HuffmanNode)
    requires
        node.kind == HuffmanNodeType::Parent(Box::new(*l), Box::new(*r)),
    ensures
        node.leaves() == l.leaves() + r.leaves(),
        node.leaves().to_multiset() == l.leaves().to_multiset().add(r.leaves().to_multiset()),
{
    let a = prefixed(l.codes(), seq![false]);
    let b = prefixed(r.codes(), seq![true]);
    lemma_symbols_prefixed(l.codes(), seq![false]);
    lemma_symbols_prefixed(r.codes(), seq![true]);
    assert(symbols(a + b) =~= symbols(a) + symbols(b));
    vstd::seq_lib::lemma_multiset_commutative(l.leaves(), r.leaves());
}

/// The index of the first node of least frequency in a queue.
pub open spec fn lightest(q: Seq<HuffmanNode>) -> int
    decreases q.len(),
{
    if q.len() <= 1 {
        0
    } else {
        let k = lightest(q.drop_last());
        if q.last().frequency < q[k].frequency {
            q.len() - 1
        } else {
            k
        }
    }
}

pub proof fn lemma_lightest(q: Seq<HuffmanNode>)
    requires
        q.len() >= 1,
    ensures
        0 <= lightest(q) < q.len(),
        forall|k: int| 0 <= k < q.len() ==> q[lightest(q)].frequency <= (#[trigger] q[k]).frequency,
    decreases q.len(),
{
    if q.len() > 1 {
        lemma_lightest(q.drop_last());
        assert forall|k: int| 0 <= k < q.len() implies q[lightest(q)].frequency <= (
        #[trigger] q[k]).frequency by {
            if k < q.len() - 1 {
                assert(q.drop_last()[k] == q[k]);
            }
        }
    }
}

/// A leaf node, as the builder makes it.
pub open spec fn leaf_node(e: (char, u64)) -> HuffmanNode {
    HuffmanNode { frequency: e.1, kind: HuffmanNodeType::Leaf(e.0) }
}

/// The queue the builder starts from: one leaf per table entry, in order.
pub open spec fn leaf_nodes(e: Seq<(char, u64)>) -> Seq<HuffmanNode> {
    e.map_values(|x: (char, u64)| leaf_node(x))
}

/// The node that merges `left` and `right`.
pub open spec fn parent_node(left: HuffmanNode, right: HuffmanNode) -> HuffmanNode {
    HuffmanNode {
        frequency: (left.frequency + right.frequency) as u64,
        kind: HuffmanNodeType::Parent(Box::new(left), Box::new(right)),
    }
}

/// One merge: the first lightest node is taken out and becomes the left
/// child; then the first lightest of those left becomes the right child; the
/// new node joins the end of the queue.
pub open spec fn merge_lightest(q: Seq<HuffmanNode>) -> Seq<HuffmanNode> {
    let i = lightest(q);
    let q1 = q.remove(i);
    let j = lightest(q1);
    q1.remove(j).push(parent_node(q[i], q1[j]))
}

/// The root that merging a queue down to one node leaves.
pub open spec fn huffman_root(q: Seq<HuffmanNode>) -> HuffmanNode
    decreases q.len(),
{
    if q.len() <= 1 {
        q[0]
    } else {
        proof {
            lemma_lightest(q);
            lemma_lightest(q.remove(lightest(q)));
        }
        huffman_root(merge_lightest(q))
    }
}

/// Removes and returns the first node of least frequency.
fn pop_lightest(q: &mut Vec<HuffmanNode>) -> (r: HuffmanNode)
    requires
        old(q)@.len() > 0,
    ensures
        0 <= lightest(old(q)@) < old(q)@.len(),
        r == old(q)@[lightest(old(q)@)],
        final(q)@ == old(q)@.remove(lightest(old(q)@)),
        forall|k: int| 0 <= k < old(q)@.len() ==> r.frequency <= (#[trigger] old(q)@[k]).frequency,
{
    proof {
        lemma_lightest(q@);
        assert(q@.take(1) =~= seq![q@[0]]);
    }
    let mut best: usize = 0;
    let mut i: usize = 1;
    while i < q.len()
        invariant
            1 <= i <= q@.len(),
            best == lightest(q@.take(i as int)),
            best < i,
        decreases q@.len() - i,
    {
        proof {
            let t = q@.take(i as int + 1);
            assert(t.drop_last() =~= q@.take(i as int));
            assert(t[best as int] == q@[best as int]);
        }
        if q[i].frequency < q[best].frequency {
            best = i;
        }
        i += 1;
    }
    proof {
        assert(q@.take(i as int) =~= q@);
    }
    q.remove(best)
}

proof fn lemma_push_multiset(s: Seq<char>, c: char)
    ensures
        s.push(c).to_multiset() == s.to_multiset().add(seq![c].to_multiset()),
        Seq::<char>::empty().to_multiset() == Multiset::<char>::empty(),
{
    broadcast use vstd::seq_lib::group_to_multiset_ensures;
    broadcast use vstd::multiset::group_multiset_axioms;

    assert(Seq::<char>::empty().push(c) =~= seq![c]);
    assert(s.push(c).to_multiset() =~= s.to_multiset().add(seq![c].to_multiset()));
    assert(Seq::<char>::empty().to_multiset() =~= Multiset::<char>::empty());
}

/// One leaf for each entry of the table.
fn leaf_queue(table: &FrequencyTable) -> (q: Vec<HuffmanNode>)
    requires
        table.wf(),
    ensures
        q@.len() == table.entries().len(),
        q@ == leaf_nodes(table.entries()),
        queue_leaves(q@) == keys_of(table.entries()).to_multiset(),
        queue_weight(q@) == total_of(table.entries()),
        forall|k: int| 0 <= k < q@.len() ==> (#[trigger] q@[k]).weights_summed() && leaf_weights(&q@[k], table@),
{
    let n = table.len();
    let ghost e = table.entries();
    proof {
        table.lemma_entries();
        assert(keys_of(e.take(0)) =~= Seq::<char>::empty());
        lemma_push_multiset(Seq::empty(), 'a');
        assert(leaf_nodes(e.take(0)) =~= Seq::<HuffmanNode>::empty());
    }
    let mut q: Vec<HuffmanNode> = Vec::new();
    let mut i: usize = 0;
    while i < n
        invariant
            i <= n,
            n == e.len(),
            e == table.entries(),
            forall|k: int| 0 <= k < e.len() ==> table@.contains_key((#[trigger] e[k]).0) && table@[e[k].0] == e[k].1,
            q@.len() == i,
            q@ == leaf_nodes(e.take(i as int)),
            queue_leaves(q@) == keys_of(e.take(i as int)).to_multiset(),
            queue_weight(q@) == total_of(e.take(i as int)),
            forall|k: int| 0 <= k < q@.len() ==> (#[trigger] q@[k]).weights_summed() && leaf_weights(&q@[k], table@),
        decreases n - i,
    {
        let (c, f) = table.entry(i);
        let node = HuffmanNode::leaf(c, f);
        let ghost q0 = q@;
        q.push(node);
        proof {
            assert(q@.drop_last() =~= q0);
            assert(q@ =~= leaf_nodes(e.take(i as int + 1)));
            assert(node.leaves() =~= seq![c]);
            assert(e.take(i as int + 1).drop_last() =~= e.take(i as int));
            assert(keys_of(e.take(i as int + 1)) =~= keys_of(e.take(i as int)).push(c));
            lemma_push_multiset(keys_of(e.take(i as int)), c);
            assert(table@.contains_key(e[i as int].0));
            assert(leaf_weights(&node, table@));
        }
        i += 1;
    }
    proof {
        assert(e.take(n as int) =~= e);
    }
    q
}

/// Builds the tree of a frequency table; `None` when the table is empty.
pub fn build(table: &FrequencyTable) -> (r: Option<HuffmanTree>)
    requires
        table.wf(),
    ensures
        r is None <==> table@.dom().is_empty(),
        r matches Some(t) ==> {
            &&& t.wf()
            &&& forall|c: char| #[trigger] t.root.leaves().contains(c) <==> table@.contains_key(c)
            &&& leaf_weights(&t.root, table@)
            &&& t.root.frequency == total_of(table.entries())
            &&& t.root == huffman_root(leaf_nodes(table.entries()))
        },
{
    let ghost e = table.entries();
    proof {
        table.lemma_entries();
    }
    let mut q = leaf_queue(table);
    if q.len() == 0 {
        proof {
            assert(table@.dom().is_empty()) by {
                if exists|c: char| table@.contains_key(c) {
                    let c = choose|c: char| table@.contains_key(c);
                    assert(exists|k: int| 0 <= k < e.len() && (#[trigger] e[k]).0 == c);
                }
            }
        }
        return None;
    }
    while q.len() > 1
        invariant
            q@.len() >= 1,
            huffman_root(q@) == huffman_root(leaf_nodes(e)),
            queue_leaves(q@) == keys_of(e).to_multiset(),
            queue_weight(q@) == total_of(e),
            total_of(e) <= u64::MAX,
            forall|k: int| 0 <= k < q@.len() ==> (#[trigger] q@[k]).weights_summed() && leaf_weights(&q@[k], table@),
        decreases q@.len(),
    {
        let ghost q0 = q@;
        let left = pop_lightest(&mut q);
        let ghost q1 = q@;
        let right = pop_lightest(&mut q);
        proof {
            let i0 = lightest(q0);
            lemma_queue_remove(q0, i0);
            let i1 = lightest(q1);
            lemma_queue_remove(q1, i1);
            assert(left.weights_summed() && leaf_weights(&left, table@));
            assert(q1[i1] == q0.remove(i0)[i1]);
            assert(right.weights_summed() && leaf_weights(&right, table@));
        }
        let ghost lg = left;
        let ghost rg = right;
        let node = HuffmanNode::parent(left, right);
        let ghost q2 = q@;
        q.push(node);
        proof {
            lemma_parent_leaves(&node, &lg, &rg);
            assert(node == parent_node(lg, rg));
            assert(q@ =~= merge_lightest(q0));
            assert(huffman_root(q0) == huffman_root(merge_lightest(q0)));
            assert(q@.drop_last() =~= q2);
            let a = queue_leaves(q2);
            let b = lg.leaves().to_multiset();
            let c = rg.leaves().to_multiset();
            assert(a.add(c).add(b) =~= a.add(b.add(c)));
        }
    }
    let ghost qf = q@;
    let root = q.pop().unwrap();
    proof {
        let s = keys_of(e);
        assert(qf.last() == root);
        assert(qf[0] == root);
        assert(huffman_root(qf) == root);
        assert(queue_weight(qf.drop_last()) == 0);
        assert(root.weights_summed() && leaf_weights(&root, table@));
        assert(queue_leaves(qf) == root.leaves().to_multiset()) by {
            assert(qf.drop_last().len() == 0);
            assert(queue_leaves(qf.drop_last()) == Multiset::<char>::empty());
            broadcast use vstd::multiset::group_multiset_axioms;
            assert(Multiset::<char>::empty().add(root.leaves().to_multiset()) =~= root.leaves().to_multiset());
        }
        assert(s.no_duplicates()) by {
            assert forall|a: int, b: int| 0 <= a < s.len() && 0 <= b < s.len() && a != b implies s[a] != s[b] by {
                assert(e[a].0 != e[b].0);
            }
        }
        s.lemma_multiset_has_no_duplicates();
        root.leaves().lemma_multiset_has_no_duplicates_conv();
        assert forall|c: char| #[trigger] root.leaves().contains(c) <==> table@.contains_key(c) by {
            vstd::seq_lib::to_multiset_contains(root.leaves(), c);
            vstd::seq_lib::to_multiset_contains(s, c);
            if s.contains(c) {
                let k = choose|k: int| 0 <= k < s.len() && s[k] == c;
                assert(e[k].0 == c);
            }
            if table@.contains_key(c) {
                let k = choose|k: int| 0 <= k < e.len() && (#[trigger] e[k]).0 == c;
                assert(s[k] == c);
            }
        }
        if table@.dom().is_empty() {
            assert(table@.contains_key(e[0].0));
        }
    }
    Some(HuffmanTree { root })
}

/// The Huffman tree of `text`: the leaves of its symbols, in the order of
/// their first occurrence and weighted by their counts, merged lightest first.
pub open spec fn huffman_tree_of(text: Seq<char>) -> HuffmanNode {
    huffman_root(leaf_nodes(frequency_entries(text)))
}

/// Builds the tree for the symbol frequencies of `text`; `None` for empty text.
pub fn create_huffman_tree(text: &str) -> (r: Option<HuffmanTree>)
    ensures
        r is None <==> text@.len() == 0,
        r matches Some(t) ==> {
            &&& t.wf()
            &&& t.root == huffman_tree_of(text@)
            &&& forall|c: char| #[trigger] t.root.leaves().contains(c) <==> text@.contains(c)
            &&& leaf_weights(&t.root, occurrence_map(text@))
            &&& t.root.frequency == text@.len()
        },
{
    let table = count(text);
    proof {
        lemma_occurrences_contains(text@);
        if text@.len() > 0 {
            assert(text@.contains(text@[0]));
            assert(table@.contains_key(text@[0]));
        }
    }
    build(&table)
}

} // verus!
