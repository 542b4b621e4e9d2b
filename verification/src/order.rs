//! The sort modes of a listing and the comparator that each one selects.

use crate::cli;
use crate::entry::Entry;
use crate::name::{
    compare_names, lemma_precedes_asymmetric, lemma_precedes_connected,
    lemma_precedes_irreflexive, lemma_precedes_transitive, precedes,
};
use std::cmp::Ordering;
use vstd::prelude::*;

verus! {

/// Order in which to list sibling entries.
#[derive(Copy, Clone, Debug, PartialEq, Eq, PartialOrd, Ord, Structural)]
pub enum Order {
    /// Alphabetical by entry name.
    Name,
    /// Directories before files, alphabetical within each group.
    Dir,
    /// Largest first; an entry of unknown size counts as empty.
    Size,
    /// Leave the entries in the order in which they were received.
    Unsorted,
}

/// A rule that orders any two entries.
#[derive(Copy, Clone, Debug, PartialEq, Eq, Structural)]
pub enum Comparator {
    /// Ascending by name.
    ByName,
    /// Directories first, then ascending by name.
    DirectoriesFirst,
    /// Descending by effective size.
    BySize,
}

impl Comparator {
    /// Whether this comparator puts `a` strictly before `b`.
    pub open spec fn sorts_before(self, a: Entry, b: Entry) -> bool {
        match self {
            Comparator::ByName => precedes(a.name@, b.name@),
            Comparator::DirectoriesFirst => {
                ||| a.is_directory && !b.is_directory
                ||| a.is_directory == b.is_directory && precedes(a.name@, b.name@)
            },
            Comparator::BySize => a.effective_size() > b.effective_size(),
        }
    }

    /// Whether this comparator reports `a` and `b` as equal.
    pub open spec fn ties(self, a: Entry, b: Entry) -> bool {
        !self.sorts_before(a, b) && !self.sorts_before(b, a)
    }

    /// What two entries have in common exactly when this comparator
    /// reports them as equal.
    pub open spec fn same_rank(self, a: Entry, b: Entry) -> bool {
        match self {
            Comparator::ByName => a.name@ == b.name@,
            Comparator::DirectoriesFirst => {
                a.is_directory == b.is_directory && a.name@ == b.name@
            },
            Comparator::BySize => a.effective_size() == b.effective_size(),
        }
    }

    /// Compares two entries by this rule.
    pub fn compare(&self, a: &Entry, b: &Entry) -> (r: Ordering)
        ensures
            r == Ordering::Less <==> self.sorts_before(*a, *b),
            r == Ordering::Equal <==> self.ties(*a, *b),
            r == Ordering::Greater <==> self.sorts_before(*b, *a),
    {
        proof {
            lemma_ties_is_same_rank(*self, *a, *b);
            if self.sorts_before(*a, *b) {
                lemma_sorts_before_asymmetric(*self, *a, *b);
            }
        }
        match self {
            Comparator::ByName => Order::name_comparator(a, b),
            Comparator::DirectoriesFirst => Order::name_dir_first_comparator(a, b),
            Comparator::BySize => Order::size_comparator(a, b),
        }
    }
}

impl Order {
    /// The comparator that this mode selects, if it selects one.
    pub open spec fn selects(self) -> Option<Comparator> {
        match self {
            Order::Name => Some(Comparator::ByName),
            Order::Dir => Some(Comparator::DirectoriesFirst),
            Order::Size => Some(Comparator::BySize),
            Order::Unsorted => None,
        }
    }

    /// Yields the comparator for this mode, or nothing where the entries
    /// are to stay as they are.
    pub fn comparator(&self) -> (found: Option<Comparator>)
        ensures
            found == self.selects(),
    {
        match self {
            Self::Name => Some(Comparator::ByName),
            Self::Dir => Some(Comparator::DirectoriesFirst),
            Self::Size => Some(Comparator::BySize),
            _ => None,
        }
    }

    /// Comparator based on entry names.
    pub fn name_comparator(a: &Entry, b: &Entry) -> (r: Ordering)
        ensures
            r == Ordering::Less <==> precedes(a.name@, b.name@),
            r == Ordering::Equal <==> a.name@ == b.name@,
            r == Ordering::Greater <==> precedes(b.name@, a.name@),
    {
        compare_names(a.name.as_str(), b.name.as_str())
    }

    /// Comparator based on entry names, with directories appearing before
    /// files.
    pub fn name_dir_first_comparator(a: &Entry, b: &Entry) -> (r: Ordering)
        ensures
            r == Ordering::Less <==> {
                ||| a.is_directory && !b.is_directory
                ||| a.is_directory == b.is_directory && precedes(a.name@, b.name@)
            },
            r == Ordering::Equal <==> a.is_directory == b.is_directory && a.name@ == b.name@,
            r == Ordering::Greater <==> {
                ||| b.is_directory && !a.is_directory
                ||| a.is_directory == b.is_directory && precedes(b.name@, a.name@)
            },
    {
        match (a.is_directory, b.is_directory) {
            (true, false) => Ordering::Less,
            (false, true) => Ordering::Greater,
            (true, true) | (false, false) => compare_names(a.name.as_str(), b.name.as_str()),
        }
    }

    /// Comparator based on entry sizes, the larger first.
    pub fn size_comparator(a: &Entry, b: &Entry) -> (r: Ordering)
        ensures
            r == Ordering::Less <==> a.effective_size() > b.effective_size(),
            r == Ordering::Equal <==> a.effective_size() == b.effective_size(),
            r == Ordering::Greater <==> a.effective_size() < b.effective_size(),
    {
        let a_size: u64 = a.size.unwrap_or(0);
        let b_size: u64 = b.size.unwrap_or(0);
        if b_size < a_size {
            Ordering::Less
        } else if a_size < b_size {
            Ordering::Greater
        } else {
            Ordering::Equal
        }
    }
}

impl From<cli::Order> for Order {
    /// The mode that a selection stands for.
    fn from(ord: cli::Order) -> (mode: Order) {
        match ord {
            cli::Order::Name => Order::Name,
            cli::Order::Dir => Order::Dir,
            cli::Order::Size => Order::Size,
            cli::Order::Unsorted => Order::Unsorted,
        }
    }
}

impl vstd::std_specs::convert::FromSpecImpl<cli::Order> for Order {
    open spec fn obeys_from_spec() -> bool {
        true
    }

    open spec fn from_spec(ord: cli::Order) -> Order {
        match ord {
            cli::Order::Name => Order::Name,
            cli::Order::Dir => Order::Dir,
            cli::Order::Size => Order::Size,
            cli::Order::Unsorted => Order::Unsorted,
        }
    }
}

/// A comparator reports two entries as equal exactly when they agree in
/// what it ranks by.
pub proof fn lemma_ties_is_same_rank(c: Comparator, a: Entry, b: Entry)
    ensures
        c.ties(a, b) <==> c.same_rank(a, b),
{
    lemma_precedes_connected(a.name@, b.name@);
    lemma_precedes_irreflexive(a.name@);
}

/// Of two entries at most one sorts before the other.
pub proof fn lemma_sorts_before_asymmetric(c: Comparator, a: Entry, b: Entry)
    requires
        c.sorts_before(a, b),
    ensures
        !c.sorts_before(b, a),
{
    if precedes(a.name@, b.name@) {
        lemma_precedes_asymmetric(a.name@, b.name@);
    }
}

/// No entry sorts before itself.
pub proof fn lemma_sorts_before_irreflexive(c: Comparator, a: Entry)
    ensures
        !c.sorts_before(a, a),
{
    lemma_precedes_irreflexive(a.name@);
}

/// Sorting before is transitive.
pub proof fn lemma_sorts_before_transitive(c: Comparator, a: Entry, b: Entry, d: Entry)
    requires
        c.sorts_before(a, b),
        c.sorts_before(b, d),
    ensures
        c.sorts_before(a, d),
{
    if precedes(a.name@, b.name@) && precedes(b.name@, d.name@) {
        lemma_precedes_transitive(a.name@, b.name@, d.name@);
    }
}

/// Not sorting after is transitive: if `b` does not sort before `a`, nor
/// `d` before `b`, then `d` does not sort before `a`.
pub proof fn lemma_not_after_transitive(c: Comparator, a: Entry, b: Entry, d: Entry)
    requires
        !c.sorts_before(b, a),
        !c.sorts_before(d, b),
    ensures
        !c.sorts_before(d, a),
{
    lemma_precedes_connected(a.name@, b.name@);
    lemma_precedes_connected(b.name@, d.name@);
    if precedes(a.name@, b.name@) && precedes(b.name@, d.name@) {
        lemma_precedes_transitive(a.name@, b.name@, d.name@);
    }
    if precedes(d.name@, a.name@) {
        lemma_precedes_asymmetric(d.name@, a.name@);
    }
    lemma_precedes_irreflexive(a.name@);
}

/// Being reported as equal is an equivalence on entries.
pub proof fn lemma_ties_equivalence(c: Comparator, a: Entry, b: Entry, d: Entry)
    ensures
        c.ties(a, a),
        c.ties(a, b) ==> c.ties(b, a),
        c.ties(a, b) && c.ties(b, d) ==> c.ties(a, d),
{
    lemma_ties_is_same_rank(c, a, a);
    lemma_ties_is_same_rank(c, a, b);
    lemma_ties_is_same_rank(c, b, d);
    lemma_ties_is_same_rank(c, a, d);
}

} // verus!
