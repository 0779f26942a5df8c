//! The error-absorbing policies of the filesystem accessor: every failure of
//! the underlying filesystem is collapsed into a lenient default — an empty
//! listing, a `false` directory answer, a report line instead of an error.
//! The outcome of the raw call is handed in as a plain value, so the policy
//! itself is verified while the call stays at the edge.

use vstd::prelude::*;

verus! {

/// A listing that could not be read at all — the path does not exist, is no
/// directory, or may not be read — is absorbed into an empty listing,
/// indistinguishable from a genuinely empty directory.
pub fn entries_or_empty(listing: Option<Vec<String>>) -> (r: Vec<String>)
    ensures
        listing matches Some(v) ==> r == v,
        listing is None ==> r@ == Seq::<String>::empty(),
{
    match listing {
        Some(v) => v,
        None => Vec::new(),
    }
}

/// A metadata lookup that failed — the path does not exist, or may not be
/// inspected — is absorbed into `false`, indistinguishable from a confirmed
/// non-directory.
pub fn dir_or_false(lookup: Option<bool>) -> (r: bool)
    ensures
        r == (lookup matches Some(true)),
{
    match lookup {
        Some(b) => b,
        None => false,
    }
}

/// The report line for one rename attempt, success or failure; failures are
/// reported in this line and nowhere else.
pub fn rename_message(ok: bool, src: &str, dst: &str) -> (r: String)
    ensures
        ok ==> r@ == "Renamed file "@ + src@ + " to "@ + dst@,
        !ok ==> r@ == "Couldn't rename file "@ + src@ + " to "@ + dst@,
{
    let mut s = if ok {
        String::from_str("Renamed file ")
    } else {
        String::from_str("Couldn't rename file ")
    };
    s.append(src);
    s.append(" to ");
    s.append(dst);
    s
}

} // verus!
