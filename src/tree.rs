//! The Huffman tree and the codes read off it.

use crate::steps::{Step, Steps, MAX_STEPS};
use vstd::prelude::*;

verus! {

/// A code table: each symbol with its path, in the order they were found.
pub type CodeTable = Seq<(char, Seq<bool>)>;

/// `a` is `b` or a beginning of it.
pub open spec fn is_prefix(a: Seq<bool>, b: Seq<bool>) -> bool {
    a.len() <= b.len() && b.subrange(0, a.len() as int) == a
}

/// No path of the table is a prefix of another entry's path (nor equal to it).
pub open spec fn prefix_free(t: CodeTable) -> bool {
    forall|i: int, j: int|
        0 <= i < t.len() && 0 <= j < t.len() && i != j ==> !is_prefix(#[trigger] t[i].1, #[trigger] t[j].1)
}

/// Each symbol occurs in at most one entry.
pub open spec fn distinct_symbols(t: CodeTable) -> bool {
    forall|i: int, j: int|
        0 <= i < t.len() && 0 <= j < t.len() && i != j ==> #[trigger] t[i].0 != #[trigger] t[j].0
}

/// Every path holds at least one and at most `MAX_STEPS` decisions.
pub open spec fn paths_bounded(t: CodeTable) -> bool {
    forall|i: int| 0 <= i < t.len() ==> 1 <= (#[trigger] t[i]).1.len() <= MAX_STEPS
}

/// The symbols of a table, in order.
pub open spec fn symbols(t: CodeTable) -> Seq<char> {
    t.map_values(|e: (char, Seq<bool>)| e.0)
}

/// Each path of the table with `p` put in front of it.
pub open spec fn prefixed(t: CodeTable, p: Seq<bool>) -> CodeTable {
    t.map_values(|e: (char, Seq<bool>)| (e.0, p + e.1))
}

/// Symbols with paths held as `Steps`, read as a code table.
pub open spec fn entries_view(s: Seq<(char, Steps)>) -> CodeTable {
    s.map_values(|e: (char, Steps)| (e.0, e.1@))
}

pub open spec fn entries_wf(s: Seq<(char, Steps)>) -> bool {
    forall|i: int| 0 <= i < s.len() ==> (#[trigger] s[i]).1.wf()
}

#[derive(Debug)]
pub enum HuffmanNodeType {
    Leaf(char),
    Parent(Box<HuffmanNode>, Box<HuffmanNode>),
}

/// A node of the tree, with the total frequency of the leaves below it.
#[derive(Debug)]
pub struct HuffmanNode {
    pub frequency: u64,
    pub kind: HuffmanNodeType,
}

#[derive(Debug)]
pub struct HuffmanTree {
    pub root: HuffmanNode,
}

impl HuffmanNode {
    /// A leaf holding `symbol`.
    pub fn leaf(symbol: char, frequency: u64) -> (r: HuffmanNode)
        ensures
            r.frequency == frequency,
            r.kind == HuffmanNodeType::Leaf(symbol),
    {
        HuffmanNode { frequency, kind: HuffmanNodeType::Leaf(symbol) }
    }

    /// An inner node over `left` and `right`, weighing as much as both.
    pub fn parent(left: HuffmanNode, right: HuffmanNode) -> (r: HuffmanNode)
        requires
            left.frequency + right.frequency <= u64::MAX,
        ensures
            r.frequency == left.frequency + right.frequency,
            r.kind == HuffmanNodeType::Parent(Box::new(left), Box::new(right)),
    {
        HuffmanNode {
            frequency: left.frequency + right.frequency,
            kind: HuffmanNodeType::Parent(Box::new(left), Box::new(right)),
        }
    }

    /// The leaves below this node, left to right, each with its path from this node.
    pub open spec fn codes(&self) -> CodeTable
        decreases self,
    {
        match &self.kind {
            HuffmanNodeType::Leaf(c) => seq![(*c, Seq::<bool>::empty())],
            HuffmanNodeType::Parent(l, r) => prefixed(l.codes(), seq![false]) + prefixed(
                r.codes(),
                seq![true],
            ),
        }
    }

    /// The symbols at the leaves, left to right.
    pub open spec fn leaves(&self) -> Seq<char> {
        symbols(self.codes())
    }

    /// The length of the longest path from this node to a leaf.
    pub open spec fn spec_depth(&self) -> nat
        decreases self,
    {
        match &self.kind {
            HuffmanNodeType::Leaf(_) => 0,
            HuffmanNodeType::Parent(l, r) => {
                let dl = l.spec_depth();
                let dr = r.spec_depth();
                1 + if dl >= dr {
                    dl
                } else {
                    dr
                }
            },
        }
    }

    /// The frequency of each inner node is the sum of its children's.
    pub open spec fn weights_summed(&self) -> bool
        decreases self,
    {
        match &self.kind {
            HuffmanNodeType::Leaf(_) => true,
            HuffmanNodeType::Parent(l, r) => {
                &&& self.frequency == l.frequency + r.frequency
                &&& l.weights_summed()
                &&& r.weights_summed()
            },
        }
    }

    /// The length of the longest path from this node to a leaf.
    pub fn depth(&self) -> (r: u64)
        ensures
            r == if self.spec_depth() > u64::MAX {
                u64::MAX as nat
            } else {
                self.spec_depth()
            },
        decreases self,
    {
        match &self.kind {
            HuffmanNodeType::Leaf(_) => 0,
            HuffmanNodeType::Parent(l, r) => {
                let dl = l.depth();
                let dr = r.depth();
                let d = if dl >= dr {
                    dl
                } else {
                    dr
                };
                if d == u64::MAX {
                    u64::MAX
                } else {
                    d + 1
                }
            },
        }
    }

    /// Appends each leaf below this node, with its path from the root, to `out`;
    /// `steps` is the path to this node and is the same again on return.
    pub fn visit(&self, steps: &mut Steps, out: &mut Vec<(char, Steps)>)
        requires
            old(steps).wf(),
            old(steps).len + self.spec_depth() <= MAX_STEPS,
            entries_wf(old(out)@),
        ensures
            *final(steps) == *old(steps),
            entries_wf(final(out)@),
            entries_view(final(out)@) == entries_view(old(out)@) + prefixed(self.codes(), old(steps)@),
        decreases self,
    {
        let ghost s0 = *steps;
        let ghost out0 = out@;
        match &self.kind {
            HuffmanNodeType::Leaf(value) => {
                out.push((*value, *steps));
                proof {
                    assert(prefixed(self.codes(), s0@) =~= seq![(*value, s0@)]) by {
                        assert(s0@ + Seq::<bool>::empty() =~= s0@);
                    }
                    assert(entries_view(out@) =~= entries_view(out0) + seq![(*value, s0@)]);
                }
            },
            HuffmanNodeType::Parent(left, right) => {
                steps.push(Step::Left);
                left.visit(steps, out);
                proof {
                    steps.lemma_view_len();
                }
                steps.pop();
                proof {
                    assert(steps@ =~= s0@);
                    steps.lemma_view_injective(&s0);
                }
                let ghost out1 = out@;
                steps.push(Step::Right);
                right.visit(steps, out);
                proof {
                    steps.lemma_view_len();
                }
                steps.pop();
                proof {
                    assert(steps@ =~= s0@);
                    steps.lemma_view_injective(&s0);
                    lemma_prefixed_twice(left.codes(), false, s0@);
                    lemma_prefixed_twice(right.codes(), true, s0@);
                    lemma_prefixed_concat(
                        prefixed(left.codes(), seq![false]),
                        prefixed(right.codes(), seq![true]),
                        s0@,
                    );
                    assert(entries_view(out@) =~= entries_view(out1) + prefixed(
                        right.codes(),
                        s0@.push(true),
                    ));
                    assert(entries_view(out1) =~= entries_view(out0) + prefixed(
                        left.codes(),
                        s0@.push(false),
                    ));
                }
            },
        }
    }
}

impl HuffmanTree {
    /// Each symbol stands at one leaf only, and every frequency is the sum of
    /// those below it.
    pub open spec fn wf(&self) -> bool {
        &&& self.root.leaves().no_duplicates()
        &&& self.root.weights_summed()
    }

    pub open spec fn spec_depth(&self) -> nat {
        self.root.spec_depth()
    }

    /// The code of each symbol. A tree that is a single leaf has no decision to
    /// make; its symbol is given the one-decision path `Left`, so that each
    /// occurrence still takes a bit.
    pub open spec fn code_table(&self) -> CodeTable {
        match self.root.kind {
            HuffmanNodeType::Leaf(c) => seq![(c, seq![false])],
            HuffmanNodeType::Parent(_, _) => self.root.codes(),
        }
    }

    /// The code table of a well-formed tree that is not too deep is a prefix
    /// code over the tree's symbols.
    pub proof fn lemma_code_table(&self)
        requires
            self.wf(),
            self.spec_depth() <= MAX_STEPS,
        ensures
            prefix_free(self.code_table()),
            distinct_symbols(self.code_table()),
            paths_bounded(self.code_table()),
            symbols(self.code_table()) == self.root.leaves(),
    {
        self.root.lemma_codes();
        let t = self.code_table();
        match self.root.kind {
            HuffmanNodeType::Leaf(c) => {
                assert(symbols(t) =~= self.root.leaves());
            },
            HuffmanNodeType::Parent(_, _) => {
                assert forall|i: int, j: int|
                    0 <= i < t.len() && 0 <= j < t.len() && i != j implies #[trigger] t[i].0
                    != #[trigger] t[j].0 by {
                    assert(self.root.leaves()[i] == t[i].0);
                    assert(self.root.leaves()[j] == t[j].0);
                }
            },
        }
    }

    /// The length of the longest path from the root to a leaf.
    pub fn depth(&self) -> (r: u64)
        ensures
            r == if self.spec_depth() > u64::MAX {
                u64::MAX as nat
            } else {
                self.spec_depth()
            },
    {
        self.root.depth()
    }

    /// Lists each symbol of the tree with its code.
    pub fn walk(&self) -> (r: Vec<(char, Steps)>)
        requires
            self.spec_depth() <= MAX_STEPS,
        ensures
            entries_wf(r@),
            entries_view(r@) == self.code_table(),
    {
        let mut out: Vec<(char, Steps)> = Vec::new();
        let mut steps = Steps::new();
        if let HuffmanNodeType::Leaf(_) = &self.root.kind {
            steps.push(Step::Left);
        }
        let ghost s0 = steps;
        self.root.visit(&mut steps, &mut out);
        proof {
            assert(entries_view(Seq::<(char, Steps)>::empty()) =~= Seq::<(char, Seq<bool>)>::empty());
            let t = self.root.codes();
            match self.root.kind {
                HuffmanNodeType::Leaf(c) => {
                    assert(s0@ =~= seq![false]);
                    assert(prefixed(t, s0@) =~= self.code_table());
                },
                HuffmanNodeType::Parent(_, _) => {
                    assert forall|i: int| 0 <= i < t.len() implies s0@ + t[i].1 =~= t[i].1 by {}
                    assert(prefixed(t, s0@) =~= t);
                },
            }
            assert(entries_view(out@) =~= self.code_table());
        }
        out
    }
}

/// Paths that begin with the same decision keep or lose the prefix relation together.
proof fn lemma_prefix_after_bit(b: bool, x: Seq<bool>, y: Seq<bool>)
    ensures
        is_prefix(seq![b] + x, seq![b] + y) == is_prefix(x, y),
{
    let bx = seq![b] + x;
    let by = seq![b] + y;
    if is_prefix(bx, by) {
        assert forall|k: int| 0 <= k < x.len() implies y.subrange(0, x.len() as int)[k] == x[k] by {
            assert(by.subrange(0, bx.len() as int)[k + 1] == bx[k + 1]);
        }
        assert(y.subrange(0, x.len() as int) =~= x);
    }
    if is_prefix(x, y) {
        assert forall|k: int| 0 <= k < bx.len() implies by.subrange(0, bx.len() as int)[k] == bx[k] by {
            if k > 0 {
                assert(y.subrange(0, x.len() as int)[k - 1] == x[k - 1]);
            }
        }
        assert(by.subrange(0, bx.len() as int) =~= bx);
    }
}

impl HuffmanNode {
    /// The codes below a node form a non-empty prefix-free table, no path
    /// longer than the depth, and below a parent none of them empty.
    pub proof fn lemma_codes(&self)
        ensures
            self.codes().len() >= 1,
            prefix_free(self.codes()),
            forall|i: int| 0 <= i < self.codes().len() ==> (#[trigger] self.codes()[i]).1.len() <= self.spec_depth(),
            self.kind is Parent ==> forall|i: int| 0 <= i < self.codes().len() ==> (#[trigger] self.codes()[i]).1.len() >= 1,
        decreases self,
    {
        match &self.kind {
            HuffmanNodeType::Leaf(_) => {},
            HuffmanNodeType::Parent(l, r) => {
                l.lemma_codes();
                r.lemma_codes();
                let a = prefixed(l.codes(), seq![false]);
                let b = prefixed(r.codes(), seq![true]);
                let t = self.codes();
                assert(t == a + b);
                assert forall|i: int| 0 <= i < t.len() implies #[trigger] t[i] == if i < a.len() {
                    (l.codes()[i].0, seq![false] + l.codes()[i].1)
                } else {
                    (r.codes()[i - a.len()].0, seq![true] + r.codes()[i - a.len()].1)
                } by {}
                assert forall|i: int, j: int|
                    0 <= i < t.len() && 0 <= j < t.len() && i != j implies !is_prefix(
                    #[trigger] t[i].1,
                    #[trigger] t[j].1,
                ) by {
                    if i < a.len() && j < a.len() {
                        lemma_prefix_after_bit(false, l.codes()[i].1, l.codes()[j].1);
                    } else if i >= a.len() && j >= a.len() {
                        lemma_prefix_after_bit(
                            true,
                            r.codes()[i - a.len()].1,
                            r.codes()[j - a.len()].1,
                        );
                    } else {
                        assert(t[i].1[0] != t[j].1[0]);
                        if is_prefix(t[i].1, t[j].1) {
                            assert(t[j].1.subrange(0, t[i].1.len() as int)[0] == t[j].1[0]);
                        }
                    }
                }
            },
        }
    }
}

impl HuffmanNode {
    /// No path is longer than the number of leaves less one.
    pub proof fn lemma_depth_below_leaves(&self)
        ensures
            self.codes().len() >= 1,
            self.spec_depth() + 1 <= self.codes().len(),
        decreases self,
    {
        match &self.kind {
            HuffmanNodeType::Leaf(_) => {},
            HuffmanNodeType::Parent(l, r) => {
                l.lemma_depth_below_leaves();
                r.lemma_depth_below_leaves();
            },
        }
    }
}

pub proof fn lemma_prefixed_twice(t: CodeTable, b: bool, p: Seq<bool>)
    ensures
        prefixed(prefixed(t, seq![b]), p) == prefixed(t, p.push(b)),
{
    assert forall|i: int| 0 <= i < t.len() implies p + (seq![b] + t[i].1) =~= p.push(b) + t[i].1 by {}
    assert(prefixed(prefixed(t, seq![b]), p) =~= prefixed(t, p.push(b)));
}

pub proof fn lemma_prefixed_concat(a: CodeTable, b: CodeTable, p: Seq<bool>)
    ensures
        prefixed(a + b, p) == prefixed(a, p) + prefixed(b, p),
{
    assert(prefixed(a + b, p) =~= prefixed(a, p) + prefixed(b, p));
}

} // verus!
