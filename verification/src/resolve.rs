//! Display-name selection for a scanned address.  Reverse lookup itself is
//! network I/O and happens outside the library; this module decides, from
//! the lookup's outcome, what name the report shows.  Lookup failure is
//! recovered locally and never surfaces as an error.

use vstd::prelude::*;

use crate::expand::{addr_text, addr_to_string};
use crate::text::{strip_trailing_dots, strip_trailing_dots_spec};
use crate::Addr;

verus! {

/// The name the report shows for `addr`: the looked-up name with any
/// trailing root-zone separators stripped, or the textual form of the
/// address itself when the lookup failed or returned no name.
pub open spec fn display_name_spec(lookup: Option<Seq<char>>, addr: Addr) -> Seq<char> {
    match lookup {
        Option::Some(n) => strip_trailing_dots_spec(n),
        Option::None => addr_text(addr),
    }
}

/// Chooses the display name for `addr` from the outcome of its reverse
/// lookup.  This never fails: a failed or empty lookup falls back to the
/// textual form of the address.
pub fn resolved_name(lookup: Option<String>, addr: Addr) -> (r: String)
    ensures
        lookup matches Some(n) ==> r@ == display_name_spec(Some(n@), addr),
        lookup is None ==> r@ == display_name_spec(None, addr),
{
    match lookup {
        Option::Some(n) => strip_trailing_dots(n.as_str()),
        Option::None => addr_to_string(addr),
    }
}

} // verus!
