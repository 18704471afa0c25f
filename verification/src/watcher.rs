//! The mutation watcher's decision path: for every batch of nodes newly
//! inserted into the tree, each inserted subtree is re-walked with the same
//! wordlist and the same ledger. Removed nodes are never walked and nodes
//! outside the batch are never revisited. A batch arriving with the budget
//! already exhausted is dropped after a cheap check.
use vstd::prelude::*;
use crate::classify::words_view;
use crate::ledger::BudgetLedger;
use crate::node::TreeNode;
use crate::walker::WalkOutcome;
use crate::walker::WalkTrace;
use crate::walker::clicks_view;
use crate::walker::walk;
use crate::walker::walk_node;
use crate::walker::walk_node_list;

verus! {

/// A walk entered with the budget exhausted produces nothing and leaves
/// the count unchanged, whatever the subtree holds.
pub proof fn lemma_walk_list_exhausted(
    s: Seq<TreeNode>,
    parent: Option<TreeNode>,
    wordlist: Seq<Seq<char>>,
    count: nat,
    max: nat,
)
    requires
        count >= max,
    ensures
        walk_node_list(s, parent, wordlist, count, max) == (WalkTrace {
            clicks: Seq::empty(),
            hosts: Seq::empty(),
            count,
        }),
    decreases s,
{
    if s.len() > 0 {
        let t1 = walk_node(s[0], parent, wordlist, count, max);
        lemma_walk_list_exhausted(s.drop_first(), parent, wordlist, count, max);
        assert(walk_node_list(s, parent, wordlist, count, max).clicks =~= Seq::<
            crate::walker::ClickView,
        >::empty());
        assert(walk_node_list(s, parent, wordlist, count, max).hosts =~= Seq::<u64>::empty());
    }
}

/// Every click of a watcher batch targets a node inside one of the
/// inserted subtrees: the watcher never re-walks, and never acts on,
/// a node outside the batch.
pub proof fn lemma_batch_clicks_within_added(
    added: Seq<TreeNode>,
    wordlist: Seq<Seq<char>>,
    count: nat,
    max: nat,
)
    ensures
        ({
            let t = walk_node_list(added, Option::None, wordlist, count, max);
            forall|i: int|
                0 <= i < t.clicks.len() ==> crate::node::subtree_ids_list(added).contains(
                    #[trigger] t.clicks[i].target,
                )
        }),
{
    crate::walker::lemma_walk_list_clicks_within_subtrees(
        added,
        Option::None,
        wordlist,
        count,
        max,
    );
}

/// Inserting a single matching button node with no subtree of its own,
/// while budget remains, causes exactly one additional action via the
/// watcher path: the click on that node, and one unit of budget consumed.
pub proof fn lemma_single_inserted_match(
    n: TreeNode,
    wordlist: Seq<Seq<char>>,
    count: nat,
    max: nat,
)
    requires
        count < max,
        crate::walker::is_match(n, wordlist),
        n.children@.len() == 0,
        n.shadow_children@.len() == 0,
    ensures
        ({
            let t = walk_node_list(seq![n], Option::None, wordlist, count, max);
            &&& t.clicks == seq![crate::walker::click_of(n, Option::None)]
            &&& t.hosts == Seq::<u64>::empty()
            &&& t.count == count + 1
        }),
{
    let t1 = walk_node(n, Option::None, wordlist, count, max);
    assert(seq![n][0] == n);
    assert(seq![n].drop_first() =~= Seq::<TreeNode>::empty());
    let own = seq![crate::walker::click_of(n, Option::None)];
    let tc = walk_node_list(n.children@, Option::Some(n), wordlist, count + 1, max);
    assert(n.children@ =~= Seq::<TreeNode>::empty());
    assert(tc.clicks == Seq::<crate::walker::ClickView>::empty());
    assert(t1.clicks =~= own);
    assert(t1.hosts =~= Seq::<u64>::empty());
    let tr = walk_node_list(seq![n].drop_first(), Option::None, wordlist, t1.count, max);
    assert(tr.clicks == Seq::<crate::walker::ClickView>::empty());
    assert(tr.hosts == Seq::<u64>::empty());
    assert(tr.count == t1.count);
    let t = walk_node_list(seq![n], Option::None, wordlist, count, max);
    assert(t.clicks == t1.clicks + tr.clicks);
    assert(t.clicks =~= own);
    assert(t.hosts =~= Seq::<u64>::empty());
}

/// Processes one batch of newly inserted nodes: walks each inserted
/// subtree in order, as a root without a parent element, against the same
/// wordlist and ledger as the initial pass. Exactly the clicks and shadow
/// hosts of those walks are produced, in batch order; nothing outside the
/// batch is visited.
#[verifier::loop_isolation(false)]
pub fn process_added_nodes(added: &Vec<TreeNode>, wordlist: &Vec<String>, ledger: &mut BudgetLedger) -> (out:
    WalkOutcome)
    ensures
        ({
            let t = walk_node_list(
                added@,
                Option::None,
                words_view(wordlist@),
                old(ledger).count as nat,
                old(ledger).max as nat,
            );
            &&& clicks_view(out.clicks@) == t.clicks
            &&& out.shadow_hosts@ == t.hosts
            &&& final(ledger).count as nat == t.count
            &&& final(ledger).max == old(ledger).max
        }),
{
    let ghost wl = words_view(wordlist@);
    let ghost m = old(ledger).max as nat;
    let ghost full = walk_node_list(added@, Option::None, wl, old(ledger).count as nat, m);
    let mut out = WalkOutcome { clicks: Vec::new(), shadow_hosts: Vec::new() };
    proof {
        assert(added@.skip(0) =~= added@);
        assert(clicks_view(out.clicks@) =~= Seq::<crate::walker::ClickView>::empty());
    }
    let n = added.len();
    let mut i: usize = 0;
    while i < n
        invariant
            0 <= i <= n,
            n == added@.len(),
            ledger.max as nat == m,
            clicks_view(out.clicks@) + walk_node_list(
                added@.skip(i as int),
                Option::None,
                wl,
                ledger.count as nat,
                m,
            ).clicks == full.clicks,
            out.shadow_hosts@ + walk_node_list(
                added@.skip(i as int),
                Option::None,
                wl,
                ledger.count as nat,
                m,
            ).hosts == full.hosts,
            walk_node_list(added@.skip(i as int), Option::None, wl, ledger.count as nat, m).count
                == full.count,
        decreases n - i,
    {
        if ledger.remaining() == 0 {
            proof {
                lemma_walk_list_exhausted(
                    added@.skip(i as int),
                    Option::None,
                    wl,
                    ledger.count as nat,
                    m,
                );
                assert(clicks_view(out.clicks@) + Seq::<crate::walker::ClickView>::empty()
                    =~= clicks_view(out.clicks@));
                assert(out.shadow_hosts@ + Seq::<u64>::empty() =~= out.shadow_hosts@);
            }
            return out;
        }
        let ghost rest = added@.skip(i as int);
        let ghost pre_clicks = clicks_view(out.clicks@);
        let ghost pre_hosts = out.shadow_hosts@;
        let ghost c_here = ledger.count as nat;
        proof {
            assert(rest[0] == added@[i as int]);
            assert(rest.drop_first() =~= added@.skip(i + 1));
        }
        let mut sub = walk(&added[i], wordlist, ledger);
        out.clicks.append(&mut sub.clicks);
        out.shadow_hosts.append(&mut sub.shadow_hosts);
        proof {
            let t1 = walk_node(added@[i as int], Option::None, wl, c_here, m);
            let t2 = walk_node_list(added@.skip(i + 1), Option::None, wl, t1.count, m);
            assert(clicks_view(out.clicks@) =~= pre_clicks + t1.clicks);
            assert(pre_clicks + (t1.clicks + t2.clicks) =~= (pre_clicks + t1.clicks) + t2.clicks);
            assert(pre_hosts + (t1.hosts + t2.hosts) =~= (pre_hosts + t1.hosts) + t2.hosts);
        }
        i = i + 1;
    }
    proof {
        assert(added@.skip(n as int) =~= Seq::<TreeNode>::empty());
        assert(clicks_view(out.clicks@) + Seq::<crate::walker::ClickView>::empty() =~= clicks_view(
            out.clicks@,
        ));
        assert(out.shadow_hosts@ + Seq::<u64>::empty() =~= out.shadow_hosts@);
    }
    out
}

} // verus!
