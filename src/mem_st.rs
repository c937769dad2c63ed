//! A small lifetime example: picking the longer of two borrowed strings.
use crate::key::key_bytes;
use vstd::prelude::*;

verus! {

/// Returns the string with more bytes; on a tie, the second one.
pub fn lifetime_show<'a>(s1: &'a String, s2: &'a String) -> (r: &'a String)
    ensures
        r == (if key_bytes(s1@).len() > key_bytes(s2@).len() {
            s1
        } else {
            s2
        }),
{
    if s1.as_str().as_bytes().len() > s2.as_str().as_bytes().len() {
        s1
    } else {
        s2
    }
}

} // verus!
