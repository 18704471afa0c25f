//! The interaction observer's decision path: for a user click on some node,
//! decide whether the node is button-like and, if so, extract its snapshot
//! for reporting. This path never consults the budget ledger and never
//! caps: every button-like click yields exactly one snapshot.
use vstd::prelude::*;
use crate::classify::button_like;
use crate::classify::is_button_like;
use crate::node::TreeNode;
use crate::node::opt_node_view;
use crate::snapshot::ButtonData;
use crate::snapshot::snapshot_of;

verus! {

/// Handles one user click whose target is `target` with parent element
/// `parent`: yields the snapshot to report exactly when the target is
/// button-like, and nothing otherwise. Independent of the budget ledger by
/// construction: no ledger is consulted or changed.
pub fn handle_button_click(target: &TreeNode, parent: Option<&TreeNode>) -> (r: Option<ButtonData>)
    ensures
        r is Some <==> button_like(*target),
        r matches Some(data) ==> data@ == snapshot_of(*target, opt_node_view(parent)),
{
    if is_button_like(target) {
        Option::Some(ButtonData::from_element(target, parent))
    } else {
        Option::None
    }
}

} // verus!
