//! The two-way mapping between symbols and their codes.

use crate::builder::{create_huffman_tree, huffman_tree_of};
use crate::steps::{Steps, MAX_STEPS};
use crate::tree::{
    distinct_symbols, entries_view, entries_wf, is_prefix, paths_bounded, prefix_free, symbols,
    CodeTable, HuffmanTree,
};
use vstd::prelude::*;

verus! {

/// A table fit for coding: a prefix code with one path per symbol, each path
/// of one to `MAX_STEPS` decisions.
pub open spec fn table_wf(t: CodeTable) -> bool {
    &&& prefix_free(t)
    &&& distinct_symbols(t)
    &&& paths_bounded(t)
}

pub open spec fn has_symbol(t: CodeTable, c: char) -> bool {
    exists|i: int| 0 <= i < t.len() && (#[trigger] t[i]).0 == c
}

pub open spec fn index_of_symbol(t: CodeTable, c: char) -> int {
    choose|i: int| 0 <= i < t.len() && (#[trigger] t[i]).0 == c
}

pub open spec fn index_of_path(t: CodeTable, p: Seq<bool>) -> int {
    choose|i: int| 0 <= i < t.len() && (#[trigger] t[i]).1 == p
}

/// The path of symbol `c` (meaningful where `has_symbol(t, c)`).
pub open spec fn code_of(t: CodeTable, c: char) -> Seq<bool> {
    t[index_of_symbol(t, c)].1
}

/// The symbol whose path is `p`, if there is one.
pub open spec fn symbol_at(t: CodeTable, p: Seq<bool>) -> Option<char> {
    if exists|i: int| 0 <= i < t.len() && (#[trigger] t[i]).1 == p {
        Some(t[index_of_path(t, p)].0)
    } else {
        None
    }
}

/// Looked up by symbol, an entry gives its own path.
pub proof fn lemma_code_of_entry(t: CodeTable, i: int)
    requires
        distinct_symbols(t),
        0 <= i < t.len(),
    ensures
        has_symbol(t, t[i].0),
        code_of(t, t[i].0) == t[i].1,
{
    assert(has_symbol(t, t[i].0));
}

/// Looked up by path, an entry gives its own symbol.
pub proof fn lemma_symbol_at_entry(t: CodeTable, i: int)
    requires
        prefix_free(t),
        0 <= i < t.len(),
    ensures
        symbol_at(t, t[i].1) == Some(t[i].0),
{
    let p = t[i].1;
    assert(0 <= i < t.len() && t[i].1 == p);
    assert(exists|k: int| 0 <= k < t.len() && (#[trigger] t[k]).1 == p);
    let k = index_of_path(t, p);
    assert(0 <= k < t.len() && t[k].1 == p);
    if k != i {
        assert(t[k].1.subrange(0, p.len() as int) =~= p);
        assert(!is_prefix(t[i].1, t[k].1));
    }
    assert(symbol_at(t, p) == Some(t[k].0));
}

/// The mapping from symbols to paths and the one from paths to symbols are
/// inverse to each other, and no two symbols share a path.
pub proof fn lemma_inverse(t: CodeTable)
    requires
        table_wf(t),
    ensures
        forall|c: char| has_symbol(t, c) ==> symbol_at(t, #[trigger] code_of(t, c)) == Some(c),
        forall|p: Seq<bool>|
            #[trigger] symbol_at(t, p) is Some ==> has_symbol(t, symbol_at(t, p)->0) && code_of(
                t,
                symbol_at(t, p)->0,
            ) == p,
        forall|c: char, d: char|
            has_symbol(t, c) && has_symbol(t, d) && c != d ==> #[trigger] code_of(t, c)
                != #[trigger] code_of(t, d),
{
    assert forall|c: char| has_symbol(t, c) implies symbol_at(t, #[trigger] code_of(t, c))
        == Some(c) by {
        let i = index_of_symbol(t, c);
        lemma_code_of_entry(t, i);
        lemma_symbol_at_entry(t, i);
    }
    assert forall|p: Seq<bool>| #[trigger] symbol_at(t, p) is Some implies has_symbol(
        t,
        symbol_at(t, p)->0,
    ) && code_of(t, symbol_at(t, p)->0) == p by {
        let i = index_of_path(t, p);
        lemma_code_of_entry(t, i);
    }
    assert forall|c: char, d: char|
        has_symbol(t, c) && has_symbol(t, d) && c != d implies #[trigger] code_of(t, c)
        != #[trigger] code_of(t, d) by {
        let i = index_of_symbol(t, c);
        let j = index_of_symbol(t, d);
        lemma_code_of_entry(t, i);
        lemma_code_of_entry(t, j);
        lemma_symbol_at_entry(t, i);
        lemma_symbol_at_entry(t, j);
    }
}

/// No symbol's path is a beginning of another symbol's path.
pub proof fn lemma_codes_prefix_free(t: CodeTable)
    requires
        table_wf(t),
    ensures
        forall|c: char, d: char|
            has_symbol(t, c) && has_symbol(t, d) && c != d ==> !is_prefix(
                #[trigger] code_of(t, c),
                #[trigger] code_of(t, d),
            ),
{
    assert forall|c: char, d: char|
        has_symbol(t, c) && has_symbol(t, d) && c != d implies !is_prefix(
        #[trigger] code_of(t, c),
        #[trigger] code_of(t, d),
    ) by {
        let i = index_of_symbol(t, c);
        let j = index_of_symbol(t, d);
        lemma_code_of_entry(t, i);
        lemma_code_of_entry(t, j);
    }
}

/// Each symbol of an alphabet with its code, searchable both ways.
#[derive(Debug)]
pub struct HuffmanEncoding {
    entries: Vec<(char, Steps)>,
}

impl View for HuffmanEncoding {
    type V = CodeTable;

    closed spec fn view(&self) -> CodeTable {
        entries_view(self.entries@)
    }
}

impl HuffmanEncoding {
    pub closed spec fn wf(&self) -> bool {
        &&& entries_wf(self.entries@)
        &&& table_wf(self@)
    }

    /// Every symbol of `text` has a code.
    pub open spec fn covers(&self, text: Seq<char>) -> bool {
        forall|k: int| 0 <= k < text.len() ==> has_symbol(self@, #[trigger] text[k])
    }

    pub proof fn lemma_wf(&self)
        requires
            self.wf(),
        ensures
            table_wf(self@),
    {
    }

    /// Reads the codes off a tree.
    pub fn new(tree: &HuffmanTree) -> (r: HuffmanEncoding)
        requires
            tree.wf(),
            tree.spec_depth() <= MAX_STEPS,
        ensures
            r.wf(),
            table_wf(r@),
            r@ == tree.code_table(),
    {
        let entries = tree.walk();
        proof {
            tree.lemma_code_table();
        }
        HuffmanEncoding { entries }
    }

    /// The number of symbols.
    pub fn len(&self) -> (r: usize)
        ensures
            r == self@.len(),
    {
        self.entries.len()
    }

    /// The `i`-th symbol with its code.
    pub fn entry(&self, i: usize) -> (r: (char, Steps))
        requires
            i < self@.len(),
        ensures
            r.0 == self@[i as int].0,
            r.1@ == self@[i as int].1,
    {
        self.entries[i]
    }

    /// The code of `c`, if it has one.
    pub fn steps_for(&self, c: char) -> (r: Option<Steps>)
        requires
            self.wf(),
        ensures
            r is Some == has_symbol(self@, c),
            r matches Some(s) ==> s.wf() && s@ == code_of(self@, c),
    {
        let mut i: usize = 0;
        while i < self.entries.len()
            invariant
                i <= self.entries@.len(),
                self.wf(),
                forall|k: int| 0 <= k < i ==> (#[trigger] self@[k]).0 != c,
            decreases self.entries@.len() - i,
        {
            let (symbol, steps) = self.entries[i];
            if symbol == c {
                proof {
                    assert(self@[i as int] == (symbol, steps@));
                    assert(self.entries@[i as int].1.wf());
                    lemma_code_of_entry(self@, i as int);
                }
                return Some(steps);
            }
            assert(self@[i as int].0 == symbol);
            i += 1;
        }
        None
    }

    /// The symbol whose code is `steps`, if there is one.
    pub fn symbol_for(&self, steps: &Steps) -> (r: Option<char>)
        requires
            self.wf(),
            steps.wf(),
        ensures
            r == symbol_at(self@, steps@),
    {
        let mut i: usize = 0;
        while i < self.entries.len()
            invariant
                i <= self.entries@.len(),
                steps.wf(),
                self.wf(),
                forall|k: int| 0 <= k < i ==> (#[trigger] self@[k]).1 != steps@,
            decreases self.entries@.len() - i,
        {
            let (symbol, path) = self.entries[i];
            proof {
                assert(self@[i as int] == (symbol, path@));
                assert(path.wf());
                path.lemma_view_injective(steps);
            }
            if path == *steps {
                proof {
                    lemma_symbol_at_entry(self@, i as int);
                }
                return Some(symbol);
            }
            i += 1;
        }
        None
    }
}

/// The code table of the Huffman tree of `text`.
pub open spec fn huffman_codes_of(text: Seq<char>) -> CodeTable {
    (HuffmanTree { root: huffman_tree_of(text) }).code_table()
}

/// The codes for the symbols of `text`. `None` when `text` is empty, or when
/// its tree is deeper than a path can hold (`MAX_STEPS` decisions), which
/// cannot happen with at most `MAX_STEPS + 1` distinct symbols.
pub fn create_huffman_encoding(text: &str) -> (r: Option<HuffmanEncoding>)
    ensures
        r is None <==> text@.len() == 0 || huffman_tree_of(text@).spec_depth() > MAX_STEPS,
        text@.len() > 0 && text@.to_set().len() <= MAX_STEPS + 1 ==> r is Some,
        r matches Some(e) ==> {
            &&& e@ == huffman_codes_of(text@)
            &&& e.wf()
            &&& table_wf(e@)
            &&& e.covers(text@)
            &&& forall|c: char| #[trigger] has_symbol(e@, c) ==> text@.contains(c)
        },
{
    let tree = create_huffman_tree(text);
    match tree {
        None => None,
        Some(t) => {
            if t.depth() > MAX_STEPS as u64 {
                proof {
                    t.root.lemma_depth_below_leaves();
                    t.root.leaves().unique_seq_to_set();
                    assert(t.root.leaves().to_set() =~= text@.to_set());
                }
                None
            } else {
                let e = HuffmanEncoding::new(&t);
                proof {
                    t.lemma_code_table();
                    assert forall|k: int| 0 <= k < text@.len() implies has_symbol(
                        e@,
                        #[trigger] text@[k],
                    ) by {
                        assert(text@.contains(text@[k]));
                        assert(t.root.leaves().contains(text@[k]));
                        let i = choose|i: int| 0 <= i < t.root.leaves().len() && t.root.leaves()[i] == text@[k];
                        assert(symbols(e@)[i] == e@[i].0);
                    }
                    assert forall|c: char| #[trigger] has_symbol(e@, c) implies text@.contains(c) by {
                        let i = choose|i: int| 0 <= i < e@.len() && (#[trigger] e@[i]).0 == c;
                        assert(symbols(e@)[i] == c);
                        assert(t.root.leaves().contains(c));
                    }
                }
                Some(e)
            }
        },
    }
}

} // verus!
