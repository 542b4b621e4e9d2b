//! The sort mode as the user of a listing names it.

use crate::name::compare_names;
use std::cmp::Ordering;
use vstd::prelude::*;

verus! {

/// The value of the option that selects the order of a listing.
#[derive(Copy, Clone, Debug, PartialEq, Eq, PartialOrd, Ord, Structural)]
pub enum Order {
    /// Written `name`.
    Name,
    /// Written `dir`.
    Dir,
    /// Written `size`.
    Size,
    /// Written `none`, or not written at all.
    Unsorted,
}

impl Order {
    /// The mode that an option value names, where it names one.
    pub open spec fn named(value: Option<Seq<char>>) -> Option<Order> {
        match value {
            None => Some(Order::Unsorted),
            Some(word) => if word == "name"@ {
                Some(Order::Name)
            } else if word == "dir"@ {
                Some(Order::Dir)
            } else if word == "size"@ {
                Some(Order::Size)
            } else if word == "none"@ {
                Some(Order::Unsorted)
            } else {
                None
            },
        }
    }

    /// Reads the value of the option: one of `name`, `dir`, `size` and
    /// `none`, or no value at all, which stands for `none`. Any other word
    /// is rejected.
    pub fn from_option(value: Option<&str>) -> (mode: Option<Order>)
        ensures
            mode == Order::named(
                match value {
                    Some(word) => Some(word@),
                    None => None,
                },
            ),
    {
        match value {
            None => Some(Order::Unsorted),
            Some(word) => {
                if is_word(word, "name") {
                    Some(Order::Name)
                } else if is_word(word, "dir") {
                    Some(Order::Dir)
                } else if is_word(word, "size") {
                    Some(Order::Size)
                } else if is_word(word, "none") {
                    Some(Order::Unsorted)
                } else {
                    None
                }
            },
        }
    }
}

/// Whether two words are the same.
fn is_word(word: &str, expected: &str) -> (same: bool)
    ensures
        same == (word@ == expected@),
{
    match compare_names(word, expected) {
        Ordering::Equal => true,
        _ => false,
    }
}

} // verus!
