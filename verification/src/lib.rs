//! A bounded, budget-aware engine that scans a document tree for
//! consent/dismissal buttons, triggers at most a configured number of
//! automated activations per persisted session, and extracts immutable
//! snapshots of the elements it acts on or observes being clicked.
use vstd::prelude::*;

pub mod classify;
pub mod ledger;
pub mod node;
pub mod observer;
pub mod snapshot;
pub mod walker;
pub mod watcher;

pub use classify::is_button_like;
pub use classify::matches_wordlist;
pub use ledger::BudgetLedger;
pub use node::TreeNode;
pub use observer::handle_button_click;
pub use snapshot::ButtonData;
pub use walker::walk;
pub use walker::ClickAction;
pub use walker::WalkOutcome;
pub use watcher::process_added_nodes;

verus! {

use crate::classify::words_view;
use crate::ledger::stored_count;
use crate::walker::clicks_view;
use crate::walker::walk_node;
use crate::walker::walk_node_list;

/// The engine: a wordlist of terms that mark a consent button, and the
/// budget ledger shared by the initial pass and every re-walk the mutation
/// watcher triggers.
pub struct CookieRefuser {
    /// The terms to look for in button elements, matched case-insensitively.
    pub wordlist: Vec<String>,
    /// The persisted click budget shared by all walks of this session.
    pub ledger: BudgetLedger,
}

impl CookieRefuser {
    /// Builds the engine from the configured wordlist, the value read out
    /// of the persistent store under the click-count key, and the
    /// configured ceiling. A missing or unparsable stored value counts as
    /// zero.
    pub fn new(wordlist: Vec<String>, stored: Option<String>, max_clicks: usize) -> (r:
        CookieRefuser)
        ensures
            r.wordlist@ == wordlist@,
            r.ledger.count as nat == stored_count(
                match stored {
                    Option::None => Option::<Seq<char>>::None,
                    Option::Some(s) => Option::Some(s@),
                },
            ),
            r.ledger.max == max_clicks,
    {
        CookieRefuser { wordlist, ledger: BudgetLedger::load(stored, max_clicks) }
    }

    /// The initial full pass: walks the whole tree rooted at `body` once,
    /// deciding every budget-gated click of the pass and every shadow host
    /// that needs a click listener.
    pub fn run(&mut self, body: &TreeNode) -> (out: WalkOutcome)
        ensures
            ({
                let t = walk_node(
                    *body,
                    Option::None,
                    words_view(old(self).wordlist@),
                    old(self).ledger.count as nat,
                    old(self).ledger.max as nat,
                );
                &&& clicks_view(out.clicks@) == t.clicks
                &&& out.shadow_hosts@ == t.hosts
                &&& final(self).ledger.count as nat == t.count
                &&& final(self).ledger.max == old(self).ledger.max
                &&& final(self).wordlist@ == old(self).wordlist@
            }),
    {
        walk(body, &self.wordlist, &mut self.ledger)
    }

    /// The watcher path: walks each subtree of one batch of newly inserted
    /// nodes, under the same wordlist and the same ledger as the initial
    /// pass.
    pub fn on_nodes_added(&mut self, added: &Vec<TreeNode>) -> (out: WalkOutcome)
        ensures
            ({
                let t = walk_node_list(
                    added@,
                    Option::None,
                    words_view(old(self).wordlist@),
                    old(self).ledger.count as nat,
                    old(self).ledger.max as nat,
                );
                &&& clicks_view(out.clicks@) == t.clicks
                &&& out.shadow_hosts@ == t.hosts
                &&& final(self).ledger.count as nat == t.count
                &&& final(self).ledger.max == old(self).ledger.max
                &&& final(self).wordlist@ == old(self).wordlist@
            }),
    {
        process_added_nodes(added, &self.wordlist, &mut self.ledger)
    }

    /// The decimal string under which the current click count is to be
    /// persisted after an accepted action.
    pub fn persist_value(&self) -> (r: String)
        ensures
            r@ == crate::ledger::dec_repr(self.ledger.count as nat),
    {
        self.ledger.persist_repr()
    }
}

} // verus!
