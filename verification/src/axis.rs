//! Axis labels: the ordered boundary lists of the chroma and value axes.

use vstd::prelude::*;
use vstd::string::*;

verus! {

/// The label that closes a chroma or value axis: "unbounded".
pub open spec fn sentinel_label() -> Seq<char> {
    "INF"@
}

/// The finite stand-in that replaces the sentinel before a boundary is read as a number.
pub open spec fn sentinel_cutoff() -> Seq<char> {
    "9999"@
}

/// What `deinfinite` returns for a label.
pub open spec fn deinfinite_spec(label: Seq<char>) -> Seq<char> {
    if label == sentinel_label() {
        sentinel_cutoff()
    } else {
        label
    }
}

/// Replaces the sentinel label by its finite stand-in and leaves every other label as it is.
pub fn deinfinite(x: String) -> (r: String)
    ensures
        r@ == deinfinite_spec(x@),
{
    let sentinel = String::from_str("INF");
    if x == sentinel {
        String::from_str("9999")
    } else {
        x
    }
}

} // verus!
