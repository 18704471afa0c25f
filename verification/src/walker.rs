//! The tree walker: a depth-first, pre-order pass over the tree that, at
//! every button-like node whose text matches the wordlist, consumes one unit
//! of budget and emits a click action with the node's snapshot. The walk
//! crosses shadow boundaries transparently and records every shadow host it
//! visits, so that click listeners can be attached inside each boundary.
//! Reaching the budget aborts the remainder of the pass.
use vstd::prelude::*;
use crate::classify::button_like;
use crate::classify::is_button_like;
use crate::classify::matches_wordlist;
use crate::classify::wordlist_match;
use crate::classify::words_view;
use crate::ledger::BudgetLedger;
use crate::node::TreeNode;
use crate::node::opt_node_view;
use crate::node::subtree_ids;
use crate::node::subtree_ids_list;
use crate::node::text_of;
use crate::snapshot::ButtonData;
use crate::snapshot::ButtonDataView;
use crate::snapshot::snapshot_of;

verus! {

broadcast use {
    vstd::seq::axiom_seq_index_decreases,
    vstd::seq::axiom_seq_subrange_decreases,
    vstd::std_specs::vec::axiom_vec_decreases_to_view,
};

/// Whether the walk acts on `n`: the node is button-like and its text
/// content matches the wordlist.
pub open spec fn is_match(n: TreeNode, wordlist: Seq<Seq<char>>) -> bool {
    button_like(n) && wordlist_match(text_of(n), wordlist)
}

/// One click action produced by the walk: the identity of the node acted
/// on, together with the snapshot taken of it.
pub struct ClickAction {
    /// Identity of the node to activate.
    pub target: u64,
    /// The snapshot of the node, for the reporting route.
    pub data: ButtonData,
}

/// The mathematical content of a [`ClickAction`].
pub struct ClickView {
    pub target: u64,
    pub data: ButtonDataView,
}

impl View for ClickAction {
    type V = ClickView;

    open spec fn view(&self) -> ClickView {
        ClickView { target: self.target, data: self.data@ }
    }
}

/// The mathematical contents of a sequence of click actions.
pub open spec fn clicks_view(s: Seq<ClickAction>) -> Seq<ClickView> {
    s.map_values(|c: ClickAction| c@)
}

/// What one walk produces: the click actions to perform, in pre-order, and
/// the shadow hosts discovered, in visit order.
pub struct WalkOutcome {
    /// The click actions, in the order the walk decided them.
    pub clicks: Vec<ClickAction>,
    /// Identities of the nodes hosting a shadow subtree that the walk
    /// entered, in visit order.
    pub shadow_hosts: Vec<u64>,
}

/// What a walk does, stated mathematically: the clicks it emits, the shadow
/// hosts it visits, and the budget count it leaves behind.
pub struct WalkTrace {
    pub clicks: Seq<ClickView>,
    pub hosts: Seq<u64>,
    pub count: nat,
}

/// The click recorded for a matched node.
pub open spec fn click_of(n: TreeNode, parent: Option<TreeNode>) -> ClickView {
    ClickView { target: n.id, data: snapshot_of(n, parent) }
}

/// The trace of the depth-first, pre-order walk of the subtree rooted at
/// `n`, entered with `count` units already consumed out of `max`. A walk
/// entered with no budget left visits nothing. Otherwise the node itself is
/// acted on when it matches, then its children are walked in document
/// order, then — when the node hosts a shadow subtree — the host is
/// recorded and the shadow roots are walked as a further child list whose
/// elements have no parent element.
pub open spec fn walk_node(
    n: TreeNode,
    parent: Option<TreeNode>,
    wordlist: Seq<Seq<char>>,
    count: nat,
    max: nat,
) -> WalkTrace
    decreases n,
{
    if count >= max {
        WalkTrace { clicks: Seq::empty(), hosts: Seq::empty(), count }
    } else {
        let hit = is_match(n, wordlist);
        let own_clicks: Seq<ClickView> = if hit {
            seq![click_of(n, parent)]
        } else {
            Seq::empty()
        };
        let c0: nat = if hit {
            count + 1
        } else {
            count
        };
        let t1 = walk_node_list(n.children@, Option::Some(n), wordlist, c0, max);
        if n.shadow_children@.len() > 0 {
            let t2 = walk_node_list(n.shadow_children@, Option::None, wordlist, t1.count, max);
            WalkTrace {
                clicks: own_clicks + t1.clicks + t2.clicks,
                hosts: t1.hosts + seq![n.id] + t2.hosts,
                count: t2.count,
            }
        } else {
            WalkTrace { clicks: own_clicks + t1.clicks, hosts: t1.hosts, count: t1.count }
        }
    }
}

/// The trace of walking each node of `s` in order, under one parent,
/// threading the budget count through.
pub open spec fn walk_node_list(
    s: Seq<TreeNode>,
    parent: Option<TreeNode>,
    wordlist: Seq<Seq<char>>,
    count: nat,
    max: nat,
) -> WalkTrace
    decreases s,
{
    if s.len() == 0 {
        WalkTrace { clicks: Seq::empty(), hosts: Seq::empty(), count }
    } else {
        let t1 = walk_node(s[0], parent, wordlist, count, max);
        let t2 = walk_node_list(s.drop_first(), parent, wordlist, t1.count, max);
        WalkTrace { clicks: t1.clicks + t2.clicks, hosts: t1.hosts + t2.hosts, count: t2.count }
    }
}

/// The matched nodes of the subtree rooted at `n` in pre-order, unlimited
/// by any budget: the clicks a walk with infinite budget would emit.
pub open spec fn match_list(n: TreeNode, parent: Option<TreeNode>, wordlist: Seq<Seq<char>>) -> Seq<
    ClickView,
>
    decreases n,
{
    let own: Seq<ClickView> = if is_match(n, wordlist) {
        seq![click_of(n, parent)]
    } else {
        Seq::empty()
    };
    own + match_list_seq(n.children@, Option::Some(n), wordlist) + match_list_seq(
        n.shadow_children@,
        Option::None,
        wordlist,
    )
}

/// The matched nodes of the subtrees rooted at the nodes of `s`, in order.
pub open spec fn match_list_seq(
    s: Seq<TreeNode>,
    parent: Option<TreeNode>,
    wordlist: Seq<Seq<char>>,
) -> Seq<ClickView>
    decreases s,
{
    if s.len() == 0 {
        Seq::empty()
    } else {
        match_list(s[0], parent, wordlist) + match_list_seq(s.drop_first(), parent, wordlist)
    }
}

/// The smaller of two integers.
pub open spec fn min_of(a: int, b: int) -> int {
    if a <= b {
        a
    } else {
        b
    }
}

/// Taking a prefix of a concatenation takes from the left part first.
proof fn lemma_take_concat(a: Seq<ClickView>, b: Seq<ClickView>, k: int)
    requires
        0 <= k <= a.len() + b.len(),
    ensures
        k <= a.len() ==> (a + b).take(k) == a.take(k),
        k > a.len() ==> (a + b).take(k) == a + b.take(k - a.len()),
{
    if k <= a.len() {
        assert((a + b).take(k) =~= a.take(k));
    } else {
        assert((a + b).take(k) =~= a + b.take(k - a.len()));
    }
}

/// A walk entered within its budget acts on exactly the first pre-order
/// matches of the subtree that fit the remaining budget, in pre-order; the
/// count it leaves behind is the entry count plus the number of clicks,
/// and never exceeds the maximum.
pub proof fn lemma_walk_first_matches(
    n: TreeNode,
    parent: Option<TreeNode>,
    wordlist: Seq<Seq<char>>,
    count: nat,
    max: nat,
)
    requires
        count <= max,
    ensures
        ({
            let t = walk_node(n, parent, wordlist, count, max);
            let m = match_list(n, parent, wordlist);
            &&& t.clicks == m.take(min_of(max - count, m.len() as int))
            &&& t.count == count + t.clicks.len()
            &&& t.count <= max
        }),
    decreases n,
{
    let t = walk_node(n, parent, wordlist, count, max);
    let m = match_list(n, parent, wordlist);
    let own: Seq<ClickView> = if is_match(n, wordlist) {
        seq![click_of(n, parent)]
    } else {
        Seq::empty()
    };
    let mc = match_list_seq(n.children@, Option::Some(n), wordlist);
    let ms = match_list_seq(n.shadow_children@, Option::None, wordlist);
    assert(m == own + mc + ms);
    if count >= max {
        assert(m.take(min_of(max - count, m.len() as int)) =~= Seq::<ClickView>::empty());
    } else {
        let hit = is_match(n, wordlist);
        let c0: nat = if hit {
            count + 1
        } else {
            count
        };
        lemma_walk_list_first_matches(n.children@, Option::Some(n), wordlist, c0, max);
        let t1 = walk_node_list(n.children@, Option::Some(n), wordlist, c0, max);
        let kc = min_of(max - c0, mc.len() as int);
        lemma_walk_list_first_matches(n.shadow_children@, Option::None, wordlist, t1.count, max);
        let t2 = walk_node_list(n.shadow_children@, Option::None, wordlist, t1.count, max);
        let ks = min_of(max - t1.count, ms.len() as int);
        if n.shadow_children@.len() == 0 {
            assert(ms =~= Seq::<ClickView>::empty());
            assert(t.clicks == own + t1.clicks);
        } else {
            assert(t.clicks == own + t1.clicks + t2.clicks);
        }
        // The whole of `own` is always taken: the budget admits at least
        // one click here.
        let k = min_of(max - count, m.len() as int);
        assert(own.len() + mc.len() + ms.len() == m.len());
        if hit {
            assert(own.len() == 1);
            assert(k >= 1);
        }
        // Split the take at `own`, then at `mc`.
        lemma_take_concat(own + mc, ms, k);
        if k <= own.len() + mc.len() {
            lemma_take_concat(own, mc, k);
        } else {
            lemma_take_concat(own, mc, own.len() as int + mc.len() as int);
        }
        if t1.count >= max {
            // The children exhausted the budget: the shadow walk adds
            // nothing, and the take ends inside `own + mc`.
            assert(t2.clicks =~= ms.take(0));
            assert(t2.clicks =~= Seq::<ClickView>::empty());
            assert(t1.clicks.len() == max - c0);
            assert(k == own.len() + t1.clicks.len());
            if kc <= mc.len() {
                assert(t1.clicks == mc.take(kc));
            }
            assert((own + mc).take(k) =~= own + mc.take(kc));
            assert(m.take(k) =~= own + t1.clicks);
            if n.shadow_children@.len() == 0 {
                assert(t.clicks =~= m.take(k));
            } else {
                assert(t.clicks =~= (own + t1.clicks) + t2.clicks);
                assert(t.clicks =~= m.take(k));
            }
        } else {
            // The children walk took every match below them.
            assert(kc == mc.len());
            assert(t1.clicks =~= mc.take(mc.len() as int));
            assert(t1.clicks =~= mc);
            assert(t1.count == c0 + mc.len());
            assert(t2.clicks == ms.take(ks));
            assert(k == own.len() + mc.len() + ks);
            assert((own + mc).take(own.len() as int + mc.len() as int) =~= own + mc);
            assert(m.take(k) =~= (own + mc) + ms.take(ks));
            if n.shadow_children@.len() == 0 {
                assert(ks == 0);
                assert(t.clicks =~= m.take(k));
            } else {
                assert(t.clicks =~= m.take(k));
            }
        }
        assert(t.clicks.len() == k);
    }
}

/// Walking a child list within budget acts on exactly the first pre-order
/// matches under those children that fit the remaining budget.
pub proof fn lemma_walk_list_first_matches(
    s: Seq<TreeNode>,
    parent: Option<TreeNode>,
    wordlist: Seq<Seq<char>>,
    count: nat,
    max: nat,
)
    requires
        count <= max,
    ensures
        ({
            let t = walk_node_list(s, parent, wordlist, count, max);
            let m = match_list_seq(s, parent, wordlist);
            &&& t.clicks == m.take(min_of(max - count, m.len() as int))
            &&& t.count == count + t.clicks.len()
            &&& t.count <= max
        }),
    decreases s,
{
    let t = walk_node_list(s, parent, wordlist, count, max);
    let m = match_list_seq(s, parent, wordlist);
    let k = min_of(max - count, m.len() as int);
    if s.len() == 0 {
        assert(m.take(k) =~= Seq::<ClickView>::empty());
    } else {
        let m0 = match_list(s[0], parent, wordlist);
        let mr = match_list_seq(s.drop_first(), parent, wordlist);
        assert(m == m0 + mr);
        lemma_walk_first_matches(s[0], parent, wordlist, count, max);
        let t1 = walk_node(s[0], parent, wordlist, count, max);
        let k0 = min_of(max - count, m0.len() as int);
        lemma_walk_list_first_matches(s.drop_first(), parent, wordlist, t1.count, max);
        let t2 = walk_node_list(s.drop_first(), parent, wordlist, t1.count, max);
        let k1 = min_of(max - t1.count, mr.len() as int);
        assert(t.clicks == t1.clicks + t2.clicks);
        lemma_take_concat(m0, mr, k);
        if k0 < m0.len() {
            // The head subtree exhausted the budget.
            assert(k0 == max - count);
            assert(t1.count == max);
            assert(t2.clicks =~= mr.take(0));
            assert(t2.clicks =~= Seq::<ClickView>::empty());
            assert(k == k0);
            assert(t.clicks =~= t1.clicks);
            assert(t.clicks =~= m.take(k));
        } else {
            // The head subtree was matched in full.
            assert(k0 == m0.len());
            assert(t1.clicks =~= m0.take(m0.len() as int));
            assert(t1.clicks =~= m0);
            assert(t1.count == count + m0.len());
            assert(k == m0.len() + k1);
            if k1 == 0 {
                assert(t2.clicks =~= mr.take(0));
                assert(m.take(k) =~= m0.take(k));
                assert(t.clicks =~= m.take(k));
            } else {
                assert(m.take(k) =~= m0 + mr.take(k1));
                assert(t.clicks =~= m.take(k));
            }
        }
        assert(t.clicks.len() == k);
    }
}

/// Every click a walk emits targets a node of the walked subtree: a walk
/// never acts outside the tree it was started on.
pub proof fn lemma_walk_clicks_within_subtree(
    n: TreeNode,
    parent: Option<TreeNode>,
    wordlist: Seq<Seq<char>>,
    count: nat,
    max: nat,
)
    ensures
        ({
            let t = walk_node(n, parent, wordlist, count, max);
            forall|i: int|
                0 <= i < t.clicks.len() ==> subtree_ids(n).contains(#[trigger] t.clicks[i].target)
        }),
    decreases n,
{
    let t = walk_node(n, parent, wordlist, count, max);
    if count < max {
        let hit = is_match(n, wordlist);
        let c0: nat = if hit {
            count + 1
        } else {
            count
        };
        lemma_walk_list_clicks_within_subtrees(n.children@, Option::Some(n), wordlist, c0, max);
        let t1 = walk_node_list(n.children@, Option::Some(n), wordlist, c0, max);
        lemma_walk_list_clicks_within_subtrees(
            n.shadow_children@,
            Option::None,
            wordlist,
            t1.count,
            max,
        );
        let t2 = walk_node_list(n.shadow_children@, Option::None, wordlist, t1.count, max);
        assert forall|i: int|
            0 <= i < t.clicks.len() implies subtree_ids(n).contains(
            #[trigger] t.clicks[i].target,
        ) by {
            let own: Seq<ClickView> = if hit {
                seq![click_of(n, parent)]
            } else {
                Seq::empty()
            };
            if i < own.len() {
                assert(t.clicks[i].target == n.id);
                assert(set![n.id].contains(n.id));
            } else if i < own.len() + t1.clicks.len() {
                assert(t.clicks[i] == t1.clicks[i - own.len()]);
                assert(subtree_ids_list(n.children@).contains(t1.clicks[i - own.len()].target));
            } else {
                assert(t.clicks[i] == t2.clicks[i - own.len() - t1.clicks.len()]);
                assert(subtree_ids_list(n.shadow_children@).contains(
                    t2.clicks[i - own.len() - t1.clicks.len()].target,
                ));
            }
        }
    }
}

/// Every click emitted by walking a list of subtrees targets a node of one
/// of those subtrees.
pub proof fn lemma_walk_list_clicks_within_subtrees(
    s: Seq<TreeNode>,
    parent: Option<TreeNode>,
    wordlist: Seq<Seq<char>>,
    count: nat,
    max: nat,
)
    ensures
        ({
            let t = walk_node_list(s, parent, wordlist, count, max);
            forall|i: int|
                0 <= i < t.clicks.len() ==> subtree_ids_list(s).contains(
                    #[trigger] t.clicks[i].target,
                )
        }),
    decreases s,
{
    let t = walk_node_list(s, parent, wordlist, count, max);
    if s.len() > 0 {
        lemma_walk_clicks_within_subtree(s[0], parent, wordlist, count, max);
        let t1 = walk_node(s[0], parent, wordlist, count, max);
        lemma_walk_list_clicks_within_subtrees(s.drop_first(), parent, wordlist, t1.count, max);
        let t2 = walk_node_list(s.drop_first(), parent, wordlist, t1.count, max);
        assert forall|i: int|
            0 <= i < t.clicks.len() implies subtree_ids_list(s).contains(
            #[trigger] t.clicks[i].target,
        ) by {
            if i < t1.clicks.len() {
                assert(t.clicks[i] == t1.clicks[i]);
                assert(subtree_ids(s[0]).contains(t1.clicks[i].target));
            } else {
                assert(t.clicks[i] == t2.clicks[i - t1.clicks.len()]);
                assert(subtree_ids_list(s.drop_first()).contains(
                    t2.clicks[i - t1.clicks.len()].target,
                ));
            }
        }
    }
}

/// Walks the subtree rooted at `node`, whose parent element is `parent`,
/// appending what it produces to `out` and consuming budget from `ledger`.
fn walk_rec(
    node: &TreeNode,
    parent: Option<&TreeNode>,
    wordlist: &Vec<String>,
    ledger: &mut BudgetLedger,
    out: &mut WalkOutcome,
)
    ensures
        ({
            let t = walk_node(
                *node,
                opt_node_view(parent),
                words_view(wordlist@),
                old(ledger).count as nat,
                old(ledger).max as nat,
            );
            &&& clicks_view(final(out).clicks@) == clicks_view(old(out).clicks@) + t.clicks
            &&& final(out).shadow_hosts@ == old(out).shadow_hosts@ + t.hosts
            &&& final(ledger).count as nat == t.count
            &&& final(ledger).max == old(ledger).max
        }),
    decreases *node,
{
    let ghost t = walk_node(
        *node,
        opt_node_view(parent),
        words_view(wordlist@),
        old(ledger).count as nat,
        old(ledger).max as nat,
    );
    if ledger.remaining() == 0 {
        proof {
            assert(clicks_view(out.clicks@) =~= clicks_view(out.clicks@) + t.clicks);
            assert(out.shadow_hosts@ =~= out.shadow_hosts@ + t.hosts);
        }
        return ;
    }
    if is_button_like(node) {
        let text = node.text_content();
        if matches_wordlist(text.as_str(), wordlist) {
            if ledger.try_consume() {
                let data = ButtonData::from_element(node, parent);
                let action = ClickAction { target: node.id, data };
                let ghost before = out.clicks@;
                let ghost av = action@;
                out.clicks.push(action);
                proof {
                    assert(clicks_view(out.clicks@) =~= clicks_view(before) + seq![av]);
                }
            }
        }
    }
    let ghost mid_clicks = clicks_view(out.clicks@);
    let ghost mid_hosts = out.shadow_hosts@;
    walk_children(&node.children, Option::Some(node), wordlist, ledger, out);
    if node.shadow_children.len() > 0 {
        out.shadow_hosts.push(node.id);
        walk_children(&node.shadow_children, Option::None, wordlist, ledger, out);
    }
    proof {
        assert(clicks_view(out.clicks@) =~= clicks_view(old(out).clicks@) + t.clicks);
        assert(out.shadow_hosts@ =~= old(out).shadow_hosts@ + t.hosts);
    }
}

/// Walks each node of `children` in order under one parent, appending what
/// the walks produce to `out`.
#[verifier::loop_isolation(false)]
fn walk_children(
    children: &Vec<TreeNode>,
    parent: Option<&TreeNode>,
    wordlist: &Vec<String>,
    ledger: &mut BudgetLedger,
    out: &mut WalkOutcome,
)
    ensures
        ({
            let t = walk_node_list(
                children@,
                opt_node_view(parent),
                words_view(wordlist@),
                old(ledger).count as nat,
                old(ledger).max as nat,
            );
            &&& clicks_view(final(out).clicks@) == clicks_view(old(out).clicks@) + t.clicks
            &&& final(out).shadow_hosts@ == old(out).shadow_hosts@ + t.hosts
            &&& final(ledger).count as nat == t.count
            &&& final(ledger).max == old(ledger).max
        }),
    decreases children@,
{
    let ghost p = opt_node_view(parent);
    let ghost wl = words_view(wordlist@);
    let ghost m = old(ledger).max as nat;
    let ghost full = walk_node_list(children@, p, wl, old(ledger).count as nat, m);
    let ghost goal_clicks = clicks_view(old(out).clicks@) + full.clicks;
    let ghost goal_hosts = old(out).shadow_hosts@ + full.hosts;
    proof {
        assert(children@.skip(0) =~= children@);
    }
    let n = children.len();
    let mut i: usize = 0;
    while i < n
        invariant
            0 <= i <= n,
            n == children@.len(),
            ledger.max as nat == m,
            clicks_view(out.clicks@) + walk_node_list(
                children@.skip(i as int),
                p,
                wl,
                ledger.count as nat,
                m,
            ).clicks == goal_clicks,
            out.shadow_hosts@ + walk_node_list(
                children@.skip(i as int),
                p,
                wl,
                ledger.count as nat,
                m,
            ).hosts == goal_hosts,
            walk_node_list(children@.skip(i as int), p, wl, ledger.count as nat, m).count
                == full.count,
        decreases n - i,
    {
        let ghost rest = children@.skip(i as int);
        let ghost pre_clicks = clicks_view(out.clicks@);
        let ghost pre_hosts = out.shadow_hosts@;
        let ghost c_here = ledger.count as nat;
        proof {
            assert(rest.len() > 0);
            assert(rest[0] == children@[i as int]);
            assert(rest.drop_first() =~= children@.skip(i + 1));
        }
        walk_rec(&children[i], parent, wordlist, ledger, out);
        proof {
            let t1 = walk_node(children@[i as int], p, wl, c_here, m);
            let t2 = walk_node_list(children@.skip(i + 1), p, wl, t1.count, m);
            assert(walk_node_list(rest, p, wl, c_here, m).clicks == t1.clicks + t2.clicks);
            assert(pre_clicks + (t1.clicks + t2.clicks) =~= (pre_clicks + t1.clicks)
                + t2.clicks);
            assert(pre_hosts + (t1.hosts + t2.hosts) =~= (pre_hosts + t1.hosts) + t2.hosts);
        }
        i = i + 1;
    }
    proof {
        assert(children@.skip(n as int) =~= Seq::<TreeNode>::empty());
        let t_end = walk_node_list(Seq::<TreeNode>::empty(), p, wl, ledger.count as nat, m);
        assert(t_end.clicks == Seq::<ClickView>::empty());
        assert(clicks_view(out.clicks@) + t_end.clicks =~= clicks_view(out.clicks@));
        assert(out.shadow_hosts@ + t_end.hosts =~= out.shadow_hosts@);
    }
}

/// Performs one full depth-first pass over the subtree rooted at `root`,
/// which has no parent element: decides every click the pass makes, in
/// pre-order, gated by the ledger, and lists every shadow host it entered.
pub fn walk(root: &TreeNode, wordlist: &Vec<String>, ledger: &mut BudgetLedger) -> (out:
    WalkOutcome)
    ensures
        ({
            let t = walk_node(
                *root,
                Option::None,
                words_view(wordlist@),
                old(ledger).count as nat,
                old(ledger).max as nat,
            );
            &&& clicks_view(out.clicks@) == t.clicks
            &&& out.shadow_hosts@ == t.hosts
            &&& final(ledger).count as nat == t.count
            &&& final(ledger).max == old(ledger).max
        }),
{
    let mut out = WalkOutcome { clicks: Vec::new(), shadow_hosts: Vec::new() };
    walk_rec(root, Option::None, wordlist, ledger, &mut out);
    proof {
        let t = walk_node(
            *root,
            Option::None,
            words_view(wordlist@),
            old(ledger).count as nat,
            old(ledger).max as nat,
        );
        assert(clicks_view(out.clicks@) =~= t.clicks);
        assert(out.shadow_hosts@ =~= t.hosts);
    }
    out
}

} // verus!
