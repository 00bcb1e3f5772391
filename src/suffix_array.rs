//! Suffix sorting.
use vstd::prelude::*;
use crate::lex::{ends_with_sentinel, is_suffix_array};

verus! {

/// Relies on bio::data_structures::suffix_array::suffix_array, an SA-IS suffix
/// sorter: for a text that ends in a single sentinel smaller than every other
/// byte it returns the positions of the text in the order of their suffixes.
/// It panics on an empty text and on one whose last byte is not the smallest.
#[verifier::external_body]
pub(crate) fn sort_suffixes(text: &Vec<u8>) -> (sa: Vec<usize>)
    requires
        ends_with_sentinel(text@),
    ensures
        is_suffix_array(text@, sa@),
{
    bio::data_structures::suffix_array::suffix_array(text)
}

} // verus!
