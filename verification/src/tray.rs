//! Texts of the tray menu entries that show the tunnel.

use vstd::prelude::*;
use crate::text::joined;

verus! {

/// The text of the status entry: `Status: <status>`.
pub fn status_item_text(status: &str) -> (r: String)
    ensures
        r@ == "Status: "@ + status@,
{
    joined("Status: ", status)
}

/// The text of the traffic entry: `Traffic: <traffic>`.
pub fn traffic_item_text(traffic: &str) -> (r: String)
    ensures
        r@ == "Traffic: "@ + traffic@,
{
    joined("Traffic: ", traffic)
}

} // verus!
