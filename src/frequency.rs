//! Counting how often each symbol occurs.

use vstd::prelude::*;

verus! {

/// The symbols of `text`, in order.
pub fn chars_of(text: &str) -> (r: Vec<char>)
    ensures
        r@ == text@,
{
    broadcast use vstd::string::axiom_spec_iter;
    let mut out: Vec<char> = Vec::new();
    for c in it: text.chars()
        invariant
            out@ == it.seq().take(it.index() as int),
            it.seq() == text@,
    {
        out.push(c);
        proof {
            assert(out@ =~= it.seq().take(it.index() as int + 1));
        }
    }
    out
}

/// How often `c` occurs in `s`.
pub open spec fn occurrences(s: Seq<char>, c: char) -> nat
    decreases s.len(),
{
    if s.len() == 0 {
        0
    } else {
        occurrences(s.drop_last(), c) + if s.last() == c {
            1nat
        } else {
            0nat
        }
    }
}

/// The distinct symbols of `s`, in the order of their first occurrence.
pub open spec fn first_occurrences(s: Seq<char>) -> Seq<char>
    decreases s.len(),
{
    if s.len() == 0 {
        Seq::empty()
    } else {
        let p = first_occurrences(s.drop_last());
        if p.contains(s.last()) {
            p
        } else {
            p.push(s.last())
        }
    }
}

/// How often each symbol occurs in `s`, for the symbols that occur.
pub open spec fn occurrence_map(s: Seq<char>) -> Map<char, nat> {
    Map::new(|c: char| occurrences(s, c) > 0, |c: char| occurrences(s, c))
}

/// The table that `count` makes of `s`: each distinct symbol, in the order of
/// its first occurrence, with its number of occurrences.
pub open spec fn frequency_entries(s: Seq<char>) -> Seq<(char, u64)> {
    first_occurrences(s).map_values(|c: char| (c, occurrences(s, c) as u64))
}

/// The symbols of a table's entries, in order.
pub open spec fn keys_of(e: Seq<(char, u64)>) -> Seq<char> {
    e.map_values(|x: (char, u64)| x.0)
}

/// A symbol occurs exactly when it is counted.
pub proof fn lemma_occurrences_contains(s: Seq<char>)
    ensures
        forall|c: char| #[trigger] occurrences(s, c) > 0 <==> s.contains(c),
    decreases s.len(),
{
    if s.len() > 0 {
        lemma_occurrences_contains(s.drop_last());
        assert forall|c: char| #[trigger] occurrences(s, c) > 0 <==> s.contains(c) by {
            let d = s.drop_last();
            assert(occurrences(d, c) > 0 <==> d.contains(c));
            if s.last() == c {
                assert(s[s.len() - 1] == c);
            }
            if s.contains(c) && s.last() != c {
                let k = choose|k: int| 0 <= k < s.len() && s[k] == c;
                assert(d[k] == c);
            }
            if d.contains(c) {
                let k = choose|k: int| 0 <= k < d.len() && d[k] == c;
                assert(s[k] == c);
            }
        }
    }
}

/// The total of the counts recorded for `c`.
pub open spec fn count_in(e: Seq<(char, u64)>, c: char) -> nat
    decreases e.len(),
{
    if e.len() == 0 {
        0
    } else {
        count_in(e.drop_last(), c) + if e.last().0 == c {
            e.last().1 as nat
        } else {
            0nat
        }
    }
}

/// The sum of all counts.
pub open spec fn total_of(e: Seq<(char, u64)>) -> nat
    decreases e.len(),
{
    if e.len() == 0 {
        0
    } else {
        total_of(e.drop_last()) + e.last().1 as nat
    }
}

pub open spec fn distinct_keys(e: Seq<(char, u64)>) -> bool {
    forall|i: int, j: int|
        0 <= i < e.len() && 0 <= j < e.len() && i != j ==> #[trigger] e[i].0 != #[trigger] e[j].0
}

proof fn lemma_count_in_absent(e: Seq<(char, u64)>, c: char)
    requires
        forall|i: int| 0 <= i < e.len() ==> (#[trigger] e[i]).0 != c,
    ensures
        count_in(e, c) == 0,
    decreases e.len(),
{
    if e.len() > 0 {
        lemma_count_in_absent(e.drop_last(), c);
    }
}

/// With distinct keys, the count of an entry's symbol is the entry's count.
pub proof fn lemma_count_in_entry(e: Seq<(char, u64)>, j: int)
    requires
        distinct_keys(e),
        0 <= j < e.len(),
    ensures
        count_in(e, e[j].0) == e[j].1,
    decreases e.len(),
{
    let l = e.len() - 1;
    if j == l {
        assert forall|i: int| 0 <= i < e.drop_last().len() implies (
        #[trigger] e.drop_last()[i]).0 != e[j].0 by {
            assert(e[i].0 != e[j].0);
        }
        lemma_count_in_absent(e.drop_last(), e[j].0);
    } else {
        lemma_count_in_entry(e.drop_last(), j);
        assert(e[l].0 != e[j].0);
    }
}

proof fn lemma_count_in_increment(e: Seq<(char, u64)>, j: int, d: char)
    requires
        0 <= j < e.len(),
        e[j].1 < u64::MAX,
    ensures
        count_in(e.update(j, (e[j].0, (e[j].1 + 1) as u64)), d) == count_in(e, d) + if e[j].0
            == d {
            1nat
        } else {
            0nat
        },
        total_of(e.update(j, (e[j].0, (e[j].1 + 1) as u64))) == total_of(e) + 1,
    decreases e.len(),
{
    let u = e.update(j, (e[j].0, (e[j].1 + 1) as u64));
    if j < e.len() - 1 {
        lemma_count_in_increment(e.drop_last(), j, d);
        assert(u.drop_last() =~= e.drop_last().update(j, (e[j].0, (e[j].1 + 1) as u64)));
    } else {
        assert(u.drop_last() =~= e.drop_last());
    }
}

/// How often each symbol occurs in a text. Only symbols that occur are listed,
/// each once, in the order of their first occurrence.
#[derive(Debug)]
pub struct FrequencyTable {
    entries: Vec<(char, u64)>,
}

impl View for FrequencyTable {
    type V = Map<char, nat>;

    closed spec fn view(&self) -> Map<char, nat> {
        Map::new(|c: char| count_in(self.entries@, c) > 0, |c: char| count_in(self.entries@, c))
    }
}

impl FrequencyTable {
    /// The symbols with their counts, in order of first occurrence.
    pub closed spec fn entries(&self) -> Seq<(char, u64)> {
        self.entries@
    }

    pub closed spec fn wf(&self) -> bool {
        &&& distinct_keys(self.entries@)
        &&& forall|i: int| 0 <= i < self.entries@.len() ==> (#[trigger] self.entries@[i]).1 >= 1
        &&& total_of(self.entries@) <= u64::MAX
    }

    /// The table is listed by its entries: each key once, with its count.
    pub proof fn lemma_entries(&self)
        requires
            self.wf(),
        ensures
            distinct_keys(self.entries()),
            total_of(self.entries()) <= u64::MAX,
            forall|i: int|
                0 <= i < self.entries().len() ==> (#[trigger] self.entries()[i]).1 >= 1
                    && self@.contains_key(self.entries()[i].0) && self@[self.entries()[i].0]
                    == self.entries()[i].1,
            forall|c: char|
                #[trigger] self@.contains_key(c) ==> exists|i: int|
                    0 <= i < self.entries().len() && (#[trigger] self.entries()[i]).0 == c,
    {
        assert forall|i: int| 0 <= i < self.entries().len() implies (
        #[trigger] self.entries()[i]).1 >= 1 && self@.contains_key(self.entries()[i].0)
            && self@[self.entries()[i].0] == self.entries()[i].1 by {
            lemma_count_in_entry(self.entries@, i);
        }
        assert forall|c: char| #[trigger] self@.contains_key(c) implies exists|i: int|
            0 <= i < self.entries().len() && (#[trigger] self.entries()[i]).0 == c by {
            if !exists|i: int| 0 <= i < self.entries().len() && (#[trigger] self.entries()[i]).0
                == c {
                assert forall|i: int| 0 <= i < self.entries@.len() implies (
                #[trigger] self.entries@[i]).0 != c by {
                    if self.entries@[i].0 == c {
                        assert(self.entries()[i].0 == c);
                    }
                }
                lemma_count_in_absent(self.entries@, c);
            }
        }
    }

    /// The number of distinct symbols.
    pub fn len(&self) -> (r: usize)
        ensures
            r == self.entries().len(),
    {
        self.entries.len()
    }

    pub fn is_empty(&self) -> (r: bool)
        requires
            self.wf(),
        ensures
            r == (self@ =~= Map::<char, nat>::empty()),
    {
        proof {
            self.lemma_entries();
            if self.entries@.len() > 0 {
                assert(self@.contains_key(self.entries@[0].0));
            }
            if self.entries@.len() == 0 {
                assert(self@ =~= Map::<char, nat>::empty());
            }
        }
        self.entries.len() == 0
    }

    /// The `i`-th symbol with its count.
    pub fn entry(&self, i: usize) -> (r: (char, u64))
        requires
            i < self.entries().len(),
        ensures
            r == self.entries()[i as int],
    {
        self.entries[i]
    }
}

/// Counts the occurrences of each symbol of `text`.
pub fn count(text: &str) -> (r: FrequencyTable)
    ensures
        r.wf(),
        r@ == occurrence_map(text@),
        r.entries() == frequency_entries(text@),
        total_of(r.entries()) == text@.len(),
{
    let chars = chars_of(text);
    let mut entries: Vec<(char, u64)> = Vec::new();
    let mut k: usize = 0;
    while k < chars.len()
        invariant
            k <= chars@.len(),
            chars@ == text@,
            distinct_keys(entries@),
            forall|i: int| 0 <= i < entries@.len() ==> (#[trigger] entries@[i]).1 >= 1,
            total_of(entries@) == k,
            forall|c: char| count_in(entries@, c) == occurrences(#[trigger] chars@.take(k as int), c),
            keys_of(entries@) == first_occurrences(chars@.take(k as int)),
        decreases chars@.len() - k,
    {
        let c = chars[k];
        let ghost before = entries@;
        proof {
            assert(chars@.take(k as int + 1).drop_last() =~= chars@.take(k as int));
        }
        let mut j: usize = 0;
        while j < entries.len()
            invariant
                j <= entries@.len(),
                entries@ == before,
                forall|i: int| 0 <= i < j ==> (#[trigger] entries@[i]).0 != c,
            ensures
                j <= entries@.len(),
                entries@ == before,
                forall|i: int| 0 <= i < j ==> (#[trigger] entries@[i]).0 != c,
                j < entries@.len() ==> entries@[j as int].0 == c,
            decreases entries@.len() - j,
        {
            if entries[j].0 == c {
                break;
            }
            j += 1;
        }
        if j < entries.len() {
            let (s, n) = entries[j];
            proof {
                lemma_count_in_entry(entries@, j as int);
                lemma_count_le_total(entries@, c);
                assert(n <= total_of(entries@));
                lemma_count_in_increment(entries@, j as int, c);
                assert forall|d: char| #[trigger] count_in(entries@.update(j as int, (s, (n + 1) as u64)), d)
                    == count_in(entries@, d) + if s == d { 1nat } else { 0nat } by {
                    lemma_count_in_increment(entries@, j as int, d);
                }
            }
            entries[j] = (s, n + 1);
        } else {
            entries.push((c, 1));
            proof {
                assert(entries@.drop_last() =~= before);
                assert forall|i: int, i2: int|
                    0 <= i < entries@.len() && 0 <= i2 < entries@.len() && i != i2 implies #[trigger] entries@[i].0 != #[trigger] entries@[i2].0 by {
                    if i < before.len() && i2 < before.len() {
                        assert(before[i].0 != before[i2].0);
                    }
                }
            }
        }
        proof {
            if j == before.len() {
                lemma_count_in_absent(before, c);
                assert(!keys_of(before).contains(c)) by {
                    if keys_of(before).contains(c) {
                        let m = choose|m: int| 0 <= m < keys_of(before).len() && keys_of(before)[m] == c;
                        assert(before[m].0 == c);
                    }
                }
                assert(keys_of(entries@) =~= keys_of(before).push(c));
            } else {
                assert(keys_of(before)[j as int] == c);
                assert(keys_of(entries@) =~= keys_of(before));
            }
            let t1 = chars@.take(k as int + 1);
            assert(t1.drop_last() =~= chars@.take(k as int));
            assert(t1.last() == c);
            assert forall|c2: char| count_in(entries@, c2) == occurrences(#[trigger] chars@.take(k as int + 1), c2) by {
                if j == before.len() {
                    assert(entries@.drop_last() =~= before);
                } else {
                    assert(count_in(entries@, c2) == count_in(before, c2) + if c == c2 { 1nat } else { 0nat });
                }
            }
        }
        k += 1;
    }
    proof {
        assert(chars@.take(k as int) =~= text@);
        assert forall|i: int| 0 <= i < entries@.len() implies #[trigger] entries@[i] == frequency_entries(text@)[i] by {
            assert(keys_of(entries@)[i] == entries@[i].0);
            lemma_count_in_entry(entries@, i);
        }
        assert(entries@ =~= frequency_entries(text@));
    }
    let r = FrequencyTable { entries };
    assert(r@ =~= Map::new(|c: char| occurrences(text@, c) > 0, |c: char| occurrences(text@, c)));
    r
}

proof fn lemma_count_le_total(e: Seq<(char, u64)>, c: char)
    ensures
        count_in(e, c) <= total_of(e),
    decreases e.len(),
{
    if e.len() > 0 {
        lemma_count_le_total(e.drop_last(), c);
    }
}

} // verus!
