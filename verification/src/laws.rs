//! What holds of every listing that a sort mode has put in order.

use crate::entry::Entry;
use crate::name::{lemma_precedes_connected, precedes_or_equals};
use crate::order::{
    lemma_not_after_transitive, lemma_sorts_before_irreflexive, lemma_ties_equivalence,
    Comparator, Order,
};
use crate::sort::tying;
use vstd::prelude::*;
use vstd::seq_lib::to_multiset_build;

verus! {

/// Sorted by name, the names never descend from one entry to a later one.
pub proof fn lemma_by_name_ascends(input: Seq<Entry>, output: Seq<Entry>)
    requires
        Order::Name.arranges(input, output),
    ensures
        forall|i: int, j: int|
            #![trigger output[i], output[j]]
            0 <= i < j < output.len() ==> precedes_or_equals(output[i].name@, output[j].name@),
{
    assert forall|i: int, j: int|
        #![trigger output[i], output[j]]
        0 <= i < j < output.len() implies precedes_or_equals(output[i].name@, output[j].name@) by {
        assert(!Comparator::ByName.sorts_before(output[j], output[i]));
        lemma_precedes_connected(output[i].name@, output[j].name@);
    }
}

/// Sorted directories first, every directory stands before every entry
/// that is none, and among the directories, as among the others, the names
/// never descend.
pub proof fn lemma_directories_come_first(input: Seq<Entry>, output: Seq<Entry>)
    requires
        Order::Dir.arranges(input, output),
    ensures
        forall|i: int, j: int|
            #![trigger output[i], output[j]]
            0 <= i < output.len() && 0 <= j < output.len() && output[i].is_directory
                && !output[j].is_directory ==> i < j,
        forall|i: int, j: int|
            #![trigger output[i], output[j]]
            0 <= i < j < output.len() && output[i].is_directory == output[j].is_directory
                ==> precedes_or_equals(output[i].name@, output[j].name@),
{
    assert forall|i: int, j: int|
        #![trigger output[i], output[j]]
        0 <= i < output.len() && 0 <= j < output.len() && output[i].is_directory
            && !output[j].is_directory implies i < j by {
        if j < i {
            assert(!Comparator::DirectoriesFirst.sorts_before(output[i], output[j]));
        }
    }
    assert forall|i: int, j: int|
        #![trigger output[i], output[j]]
        0 <= i < j < output.len() && output[i].is_directory
            == output[j].is_directory implies precedes_or_equals(
        output[i].name@,
        output[j].name@,
    ) by {
        assert(!Comparator::DirectoriesFirst.sorts_before(output[j], output[i]));
        lemma_precedes_connected(output[i].name@, output[j].name@);
    }
}

/// Sorted by size, the effective sizes never ascend from one entry to a
/// later one.
pub proof fn lemma_by_size_descends(input: Seq<Entry>, output: Seq<Entry>)
    requires
        Order::Size.arranges(input, output),
    ensures
        forall|i: int, j: int|
            #![trigger output[i], output[j]]
            0 <= i < j < output.len() ==> output[i].effective_size()
                >= output[j].effective_size(),
{
    assert forall|i: int, j: int|
        #![trigger output[i], output[j]]
        0 <= i < j < output.len() implies output[i].effective_size()
        >= output[j].effective_size() by {
        assert(!Comparator::BySize.sorts_before(output[j], output[i]));
    }
}

/// Left unsorted, the listing is the input, entry for entry.
pub proof fn lemma_unsorted_is_untouched(input: Seq<Entry>, output: Seq<Entry>)
    requires
        Order::Unsorted.arranges(input, output),
    ensures
        output == input,
{
}

/// An entry that meets a test occurs as often among the entries picked out
/// by the test as in the whole sequence.
proof fn lemma_filter_keeps_count(s: Seq<Entry>, test: spec_fn(Entry) -> bool, v: Entry)
    requires
        test(v),
    ensures
        s.filter(test).to_multiset().count(v) == s.to_multiset().count(v),
    decreases s.len(),
{
    reveal(Seq::filter);
    if s.len() > 0 {
        let rest = s.drop_last();
        let last = s.last();
        lemma_filter_keeps_count(rest, test, v);
        assert(s =~= rest.push(last));
        to_multiset_build(rest, last);
        if test(last) {
            to_multiset_build(rest.filter(test), last);
        }
    }
}

/// Two entries that meet a test stand among the entries picked out by the
/// test in the order in which they stand in the whole sequence.
proof fn lemma_filter_keeps_order(s: Seq<Entry>, test: spec_fn(Entry) -> bool, i: int, j: int)
    -> (at: (int, int))
    requires
        0 <= i < j < s.len(),
        test(s[i]),
        test(s[j]),
    ensures
        0 <= at.0 < at.1 < s.filter(test).len(),
        s.filter(test)[at.0] == s[i],
        s.filter(test)[at.1] == s[j],
    decreases s.len(),
{
    reveal(Seq::filter);
    let rest = s.drop_last();
    if j == s.len() - 1 {
        rest.lemma_filter_contains(test, i);
        let k = choose|k: int| 0 <= k < rest.filter(test).len() && rest.filter(test)[k] == rest[i];
        (k, rest.filter(test).len() as int)
    } else {
        lemma_filter_keeps_order(rest, test, i, j)
    }
}

/// Two entries among those picked out by a test stand in the whole
/// sequence in the same order.
proof fn lemma_filter_order_is_kept(s: Seq<Entry>, test: spec_fn(Entry) -> bool, i: int, j: int)
    -> (at: (int, int))
    requires
        0 <= i < j < s.filter(test).len(),
    ensures
        0 <= at.0 < at.1 < s.len(),
        s[at.0] == s.filter(test)[i],
        s[at.1] == s.filter(test)[j],
    decreases s.len(),
{
    reveal(Seq::filter);
    let rest = s.drop_last();
    if test(s.last()) && j == rest.filter(test).len() {
        let e = rest.filter(test)[i];
        assert(rest.filter(test).contains(e));
        rest.lemma_filter_contains_rev(test, e);
        let k = choose|k: int| 0 <= k < rest.len() && rest[k] == e;
        (k, s.len() - 1)
    } else {
        lemma_filter_order_is_kept(rest, test, i, j)
    }
}

/// A sort holds the entries that it was given, each as often as before.
pub proof fn lemma_sort_permutes(c: Comparator, input: Seq<Entry>, output: Seq<Entry>)
    requires
        c.keeps_ties(input, output),
    ensures
        output.to_multiset() == input.to_multiset(),
        output.len() == input.len(),
{
    assert forall|v: Entry| output.to_multiset().count(v) == input.to_multiset().count(v) by {
        let test = tying(c, v);
        lemma_ties_equivalence(c, v, v, v);
        lemma_filter_keeps_count(input, test, v);
        lemma_filter_keeps_count(output, test, v);
    }
    assert(output.to_multiset() =~= input.to_multiset());
    input.to_multiset_ensures();
    output.to_multiset_ensures();
}

/// Stability: two entries that the comparator reports as equal stand in the
/// sorted listing in the order in which they stood in the input.
pub proof fn lemma_tied_entries_keep_their_order(
    c: Comparator,
    input: Seq<Entry>,
    output: Seq<Entry>,
    i: int,
    j: int,
)
    requires
        c.keeps_ties(input, output),
        0 <= i < j < input.len(),
        c.ties(input[i], input[j]),
    ensures
        exists|m: int, n: int|
            0 <= m < n < output.len() && #[trigger] output[m] == input[i] && #[trigger] output[n]
                == input[j],
{
    let test = tying(c, input[j]);
    lemma_ties_equivalence(c, input[j], input[j], input[j]);
    let among = lemma_filter_keeps_order(input, test, i, j);
    let at = lemma_filter_order_is_kept(output, test, among.0, among.1);
    assert(output[at.0] == input[i] && output[at.1] == input[j]);
}

/// A comparator and an input leave one stable sort, no more.
pub proof fn lemma_stable_sort_is_unique(
    c: Comparator,
    input: Seq<Entry>,
    one: Seq<Entry>,
    other: Seq<Entry>,
)
    requires
        c.sorts_stably(input, one),
        c.sorts_stably(input, other),
    ensures
        one == other,
{
    assert(c.keeps_ties(one, other)) by {
        assert forall|x: Entry| #![trigger tying(c, x)] other.filter(tying(c, x)) == one.filter(
            tying(c, x),
        ) by {
            assert(one.filter(tying(c, x)) == input.filter(tying(c, x)));
        }
    }
    lemma_same_ties_same_order(c, one, other);
}

/// A sort mode and an input leave one listing, no more.
pub proof fn lemma_arrangement_is_unique(
    mode: Order,
    input: Seq<Entry>,
    one: Seq<Entry>,
    other: Seq<Entry>,
)
    requires
        mode.arranges(input, one),
        mode.arranges(input, other),
    ensures
        one == other,
{
    match mode.selects() {
        Some(c) => lemma_stable_sort_is_unique(c, input, one, other),
        None => {},
    }
}

/// Two sorted sequences with the same ties, in the same order, are one
/// sequence.
proof fn lemma_same_ties_same_order(c: Comparator, a: Seq<Entry>, b: Seq<Entry>)
    requires
        c.in_order(a),
        c.in_order(b),
        c.keeps_ties(a, b),
    ensures
        a == b,
    decreases a.len(),
{
    reveal(Seq::filter);
    lemma_sort_permutes(c, a, b);
    if a.len() == 0 {
        assert(a =~= b);
    } else {
        let last_a = a.last();
        let last_b = b.last();
        let rest_a = a.drop_last();
        let rest_b = b.drop_last();
        // Each last entry ties with an entry of the other sequence, which
        // does not sort after that sequence's last: so the two tie.
        lemma_ties_equivalence(c, last_a, last_a, last_a);
        lemma_ties_equivalence(c, last_b, last_b, last_b);
        let in_b = lemma_tied_entry_is_there(c, a, b, a.len() - 1);
        let in_a = lemma_tied_entry_is_there(c, b, a, b.len() - 1);
        assert(!c.sorts_before(last_a, a[in_a])) by {
            if in_a < a.len() - 1 {
                assert(!c.sorts_before(a[a.len() - 1], a[in_a]));
            } else {
                lemma_sorts_before_irreflexive(c, last_a);
            }
        }
        assert(!c.sorts_before(last_b, b[in_b])) by {
            if in_b < b.len() - 1 {
                assert(!c.sorts_before(b[b.len() - 1], b[in_b]));
            } else {
                lemma_sorts_before_irreflexive(c, last_b);
            }
        }
        lemma_not_after_transitive(c, last_b, a[in_a], last_a);
        lemma_not_after_transitive(c, last_a, b[in_b], last_b);
        assert(c.ties(last_a, last_b));
        assert(a.filter(tying(c, last_b)) == b.filter(tying(c, last_b)));
        assert(a.filter(tying(c, last_b)).last() == last_a);
        assert(b.filter(tying(c, last_b)).last() == last_b);
        assert(last_a == last_b);
        assert forall|x: Entry| #![trigger tying(c, x)] rest_b.filter(tying(c, x)) == rest_a.filter(
            tying(c, x),
        ) by {
            let test = tying(c, x);
            assert(a.filter(test) == b.filter(test));
            if test(last_a) {
                assert(rest_a.filter(test) =~= a.filter(test).drop_last());
                assert(rest_b.filter(test) =~= b.filter(test).drop_last());
            }
        }
        lemma_same_ties_same_order(c, rest_a, rest_b);
        assert(a =~= rest_a.push(last_a));
        assert(b =~= rest_b.push(last_b));
    }
}

/// With the same ties in `a` as in `b`, an entry of `a` ties with one of
/// `b`.
proof fn lemma_tied_entry_is_there(c: Comparator, a: Seq<Entry>, b: Seq<Entry>, i: int) -> (k: int)
    requires
        c.keeps_ties(a, b) || c.keeps_ties(b, a),
        0 <= i < a.len(),
    ensures
        0 <= k < b.len(),
        c.ties(b[k], a[i]),
{
    let test = tying(c, a[i]);
    lemma_ties_equivalence(c, a[i], a[i], a[i]);
    assert(a.filter(test) == b.filter(test));
    a.lemma_filter_contains(test, i);
    let e = a[i];
    b.lemma_filter_contains_rev(test, e);
    choose|k: int| 0 <= k < b.len() && b[k] == e
}

} // verus!
