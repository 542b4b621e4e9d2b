//! Stable sorting of sibling entries by a comparator.
//!
//! The sort is a top-down merge sort that moves entries and never copies
//! them. A merge takes the larger of the two last entries off its runs
//! until one run is used up, so that what it has taken is the tail of the
//! result, last entry first.

use crate::entry::Entry;
use crate::laws::lemma_sort_permutes;
use crate::order::{
    lemma_not_after_transitive, lemma_sorts_before_asymmetric, lemma_sorts_before_irreflexive,
    lemma_ties_equivalence, Comparator, Order,
};
use std::cmp::Ordering;
use vstd::prelude::*;

verus! {

/// The test that picks out the entries that `c` reports as equal to `x`.
pub open spec fn tying(c: Comparator, x: Entry) -> spec_fn(Entry) -> bool {
    |e: Entry| c.ties(e, x)
}

impl Comparator {
    /// Whether no entry of `s` sorts before one that stands earlier in `s`.
    pub open spec fn in_order(self, s: Seq<Entry>) -> bool {
        forall|i: int, j: int| 0 <= i < j < s.len() ==> !#[trigger] self.sorts_before(s[j], s[i])
    }

    /// Whether, for any entry, the entries that tie with it are the same in
    /// `output` as in `input` and stand in the same order.
    pub open spec fn keeps_ties(self, input: Seq<Entry>, output: Seq<Entry>) -> bool {
        forall|x: Entry|
            #![trigger tying(self, x)]
            output.filter(tying(self, x)) == input.filter(tying(self, x))
    }

    /// Whether `output` is `input` sorted by this comparator, entries that
    /// tie keeping the order they had.
    pub open spec fn sorts_stably(self, input: Seq<Entry>, output: Seq<Entry>) -> bool {
        self.in_order(output) && self.keeps_ties(input, output)
    }

    /// Sorts the entries by this comparator. The sort is stable: entries
    /// that the comparator reports as equal keep the order they had.
    pub fn sort(&self, entries: &mut Vec<Entry>)
        ensures
            self.sorts_stably(old(entries)@, final(entries)@),
            final(entries)@.to_multiset() == old(entries)@.to_multiset(),
            final(entries)@.len() == old(entries)@.len(),
    {
        let mut taken: Vec<Entry> = Vec::new();
        std::mem::swap(entries, &mut taken);
        let ghost input = taken@;
        let mut sorted = sort_run(*self, taken);
        proof {
            lemma_sort_permutes(*self, input, sorted@);
        }
        std::mem::swap(entries, &mut sorted);
    }
}

impl Order {
    /// Whether `output` is what this mode makes of `input`.
    pub open spec fn arranges(self, input: Seq<Entry>, output: Seq<Entry>) -> bool {
        match self.selects() {
            Some(c) => c.sorts_stably(input, output),
            None => output == input,
        }
    }

    /// Puts the entries in the order of this mode: sorted stably by its
    /// comparator, or untouched where it has none.
    pub fn sort(&self, entries: &mut Vec<Entry>)
        ensures
            self.arranges(old(entries)@, final(entries)@),
            final(entries)@.to_multiset() == old(entries)@.to_multiset(),
            final(entries)@.len() == old(entries)@.len(),
    {
        match self.comparator() {
            Some(c) => c.sort(entries),
            None => {},
        }
    }
}

/// Whether `back` holds the entries of `tail` last entry first.
spec fn mirrored(back: Seq<Entry>, tail: Seq<Entry>) -> bool {
    &&& back.len() == tail.len()
    &&& forall|i: int| 0 <= i < back.len() ==> back[i] == tail[tail.len() - 1 - i]
}

/// Filtering by a test that no entry meets leaves nothing.
proof fn lemma_filter_none(s: Seq<Entry>, test: spec_fn(Entry) -> bool)
    requires
        forall|i: int| 0 <= i < s.len() ==> !test(#[trigger] s[i]),
    ensures
        s.filter(test) == Seq::<Entry>::empty(),
    decreases s.len(),
{
    reveal(Seq::filter);
    if s.len() > 0 {
        lemma_filter_none(s.drop_last(), test);
    }
}

/// An entry that a whole run sorts before can stand before the run or
/// after it without a change to the ties of any entry.
proof fn lemma_ties_past_run(c: Comparator, run: Seq<Entry>, e: Entry, x: Entry)
    requires
        forall|i: int| 0 <= i < run.len() ==> c.sorts_before(#[trigger] run[i], e),
    ensures
        run.push(e).filter(tying(c, x)) == (seq![e] + run).filter(tying(c, x)),
{
    let test = tying(c, x);
    run.lemma_filter_push(e, test);
    run.lemma_filter_prepend(e, test);
    if test(e) {
        assert forall|i: int| 0 <= i < run.len() implies !test(#[trigger] run[i]) by {
            if c.ties(run[i], x) {
                lemma_ties_equivalence(c, e, x, run[i]);
                lemma_ties_equivalence(c, run[i], x, e);
            }
        }
        lemma_filter_none(run, test);
        assert(Seq::<Entry>::empty().push(e) =~= seq![e] + Seq::<Entry>::empty());
    } else {
        assert(Seq::<Entry>::empty() + run.filter(test) =~= run.filter(test));
    }
}

/// Two sequences that differ in a middle part keep the same ties where the
/// two middle parts do.
proof fn lemma_ties_around(
    c: Comparator,
    head: Seq<Entry>,
    was: Seq<Entry>,
    now: Seq<Entry>,
    tail: Seq<Entry>,
    x: Entry,
)
    requires
        was.filter(tying(c, x)) == now.filter(tying(c, x)),
    ensures
        (head + was + tail).filter(tying(c, x)) == (head + now + tail).filter(tying(c, x)),
{
    let test = tying(c, x);
    Seq::filter_distributes_over_add(head, was, test);
    Seq::filter_distributes_over_add(head + was, tail, test);
    Seq::filter_distributes_over_add(head, now, test);
    Seq::filter_distributes_over_add(head + now, tail, test);
}

/// Merges two sorted runs into one, the entries of `left` coming before
/// those of `right` that tie with them.
fn merge(c: Comparator, left: Vec<Entry>, right: Vec<Entry>) -> (out: Vec<Entry>)
    requires
        c.in_order(left@),
        c.in_order(right@),
    ensures
        c.sorts_stably(left@ + right@, out@),
{
    let ghost input = left@ + right@;
    let mut left = left;
    let mut right = right;
    let mut back: Vec<Entry> = Vec::new();
    let ghost mut tail: Seq<Entry> = Seq::empty();
    assert(left@ + right@ + tail =~= input);
    while left.len() > 0 && right.len() > 0
        invariant
            c.in_order(left@),
            c.in_order(right@),
            c.in_order(tail),
            mirrored(back@, tail),
            forall|i: int, j: int|
                0 <= i < left@.len() && 0 <= j < tail.len() ==> !#[trigger] c.sorts_before(
                    tail[j],
                    left@[i],
                ),
            forall|i: int, j: int|
                0 <= i < right@.len() && 0 <= j < tail.len() ==> !#[trigger] c.sorts_before(
                    tail[j],
                    right@[i],
                ),
            c.keeps_ties(input, left@ + right@ + tail),
        decreases left@.len() + right@.len(),
    {
        let ghost old_left = left@;
        let ghost old_right = right@;
        let ghost old_tail = tail;
        let verdict = c.compare(&left[left.len() - 1], &right[right.len() - 1]);
        let from_left = match verdict {
            Ordering::Greater => true,
            _ => false,
        };
        if from_left {
            let e = left.pop().unwrap();
            proof {
                tail = seq![e] + old_tail;
                assert forall|i: int| 0 <= i < old_right.len() implies c.sorts_before(
                    #[trigger] old_right[i],
                    e,
                ) by {
                    lemma_sorts_before_irreflexive(c, old_right.last());
                    if !c.sorts_before(old_right[i], e) {
                        lemma_not_after_transitive(c, e, old_right[i], old_right.last());
                    }
                }
                assert forall|i: int, j: int|
                    0 <= i < right@.len() && 0 <= j < tail.len() implies !#[trigger] c.sorts_before(
                    tail[j],
                    right@[i],
                ) by {
                    if j == 0 {
                        lemma_sorts_before_asymmetric(c, right@[i], e);
                    } else {
                        assert(tail[j] == old_tail[j - 1]);
                    }
                }
                assert forall|i: int, j: int|
                    0 <= i < left@.len() && 0 <= j < tail.len() implies !#[trigger] c.sorts_before(
                    tail[j],
                    left@[i],
                ) by {
                    if j == 0 {
                        assert(left@[i] == old_left[i]);
                    } else {
                        assert(tail[j] == old_tail[j - 1]);
                        assert(left@[i] == old_left[i]);
                    }
                }
                assert forall|i: int, j: int| 0 <= i < j < tail.len() implies !#[trigger] c.sorts_before(
                    tail[j],
                    tail[i],
                ) by {
                    assert(tail[j] == old_tail[j - 1]);
                    if i > 0 {
                        assert(tail[i] == old_tail[i - 1]);
                    }
                }
                assert forall|x: Entry|
                    #![trigger tying(c, x)]
                    (left@ + right@ + tail).filter(tying(c, x)) == input.filter(
                        tying(c, x),
                    ) by {
                    lemma_ties_past_run(c, old_right, e, x);
                    lemma_ties_around(c, left@, seq![e] + old_right, old_right.push(e), old_tail, x);
                    assert(left@ + (seq![e] + old_right) + old_tail =~= old_left + old_right
                        + old_tail);
                    assert(left@ + old_right.push(e) + old_tail =~= left@ + right@ + tail);
                }
            }
            back.push(e);
        } else {
            let e = right.pop().unwrap();
            proof {
                tail = seq![e] + old_tail;
                assert(left@ + right@ + tail =~= old_left + old_right + old_tail);
                assert forall|i: int, j: int|
                    0 <= i < left@.len() && 0 <= j < tail.len() implies !#[trigger] c.sorts_before(
                    tail[j],
                    left@[i],
                ) by {
                    if j == 0 {
                        lemma_sorts_before_irreflexive(c, left@.last());
                        lemma_not_after_transitive(c, left@[i], left@.last(), e);
                    } else {
                        assert(tail[j] == old_tail[j - 1]);
                    }
                }
                assert forall|i: int, j: int|
                    0 <= i < right@.len() && 0 <= j < tail.len() implies !#[trigger] c.sorts_before(
                    tail[j],
                    right@[i],
                ) by {
                    assert(right@[i] == old_right[i]);
                    if j > 0 {
                        assert(tail[j] == old_tail[j - 1]);
                    }
                }
                assert forall|i: int, j: int| 0 <= i < j < tail.len() implies !#[trigger] c.sorts_before(
                    tail[j],
                    tail[i],
                ) by {
                    assert(tail[j] == old_tail[j - 1]);
                    if i > 0 {
                        assert(tail[i] == old_tail[i - 1]);
                    }
                }
            }
            back.push(e);
        }
    }
    let ghost kept = left@ + right@;
    left.append(&mut right);
    assert(left@ + tail =~= kept + tail);
    let ghost mut done: int = 0;
    while back.len() > 0
        invariant
            0 <= done <= tail.len(),
            back@.len() == tail.len() - done,
            forall|i: int| 0 <= i < back@.len() ==> back@[i] == tail[tail.len() - 1 - i],
            left@ == kept + tail.subrange(0, done),
        decreases back@.len(),
    {
        let e = back.pop().unwrap();
        proof {
            assert(e == tail[done]);
            assert(tail.subrange(0, done + 1) =~= tail.subrange(0, done).push(e));
            assert(kept + tail.subrange(0, done + 1) =~= (kept + tail.subrange(0, done)).push(e));
            done = done + 1;
        }
        left.push(e);
    }
    assert(tail.subrange(0, done) =~= tail);
    assert forall|i: int, j: int| 0 <= i < j < left@.len() implies !#[trigger] c.sorts_before(
        left@[j],
        left@[i],
    ) by {
        if j >= kept.len() {
            assert(left@[j] == tail[j - kept.len()]);
            if i >= kept.len() {
                assert(left@[i] == tail[i - kept.len()]);
            }
        }
    }
    left
}

/// Sorts a run of entries by merging its sorted halves.
fn sort_run(c: Comparator, entries: Vec<Entry>) -> (out: Vec<Entry>)
    ensures
        c.sorts_stably(entries@, out@),
    decreases entries@.len(),
{
    let count: usize = entries.len();
    if count <= 1 {
        return entries;
    }
    let mut first = entries;
    let second = first.split_off(count / 2);
    let ghost halves = (first@, second@);
    assert(halves.0 + halves.1 =~= entries@);
    let first = sort_run(c, first);
    let second = sort_run(c, second);
    let out = merge(c, first, second);
    assert forall|x: Entry| #![trigger tying(c, x)] out@.filter(tying(c, x)) == entries@.filter(
        tying(c, x),
    ) by {
        let test = tying(c, x);
        Seq::filter_distributes_over_add(first@, second@, test);
        Seq::filter_distributes_over_add(halves.0, halves.1, test);
    }
    out
}

} // verus!
