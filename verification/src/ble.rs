//! The advertisement filter of the scan: which peripheral is the printer.

use vstd::prelude::*;
use crate::text::{has_prefix, starts_with};

verus! {

pub const NAME_PREFIX: &'static str = "M511";

/// Whether an advertised local name marks the peripheral the scan looks for:
/// there is a name and it begins with `prefix`.
pub fn name_matches(local_name: Option<&str>, prefix: &str) -> (m: bool)
    ensures
        m == match local_name {
            Some(n) => has_prefix(n@, prefix@),
            None => false,
        },
{
    match local_name {
        Some(n) => starts_with(n, prefix),
        None => false,
    }
}

} // verus!
