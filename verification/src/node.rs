//! The document tree model: a node with its identifying attributes, its
//! direct children, and the roots of an encapsulated (shadow) subtree hosted
//! by the node. The walker reads this tree; it never mutates it.
use vstd::prelude::*;

verus! {

use vstd::string::StringExecFns;

broadcast use {
    vstd::seq::axiom_seq_index_decreases,
    vstd::seq::axiom_seq_subrange_decreases,
    vstd::std_specs::vec::axiom_vec_decreases_to_view,
};

/// One node of the live document tree, captured as plain values.
///
/// `id` stands for the node's identity (two nodes of one tree carry distinct
/// ids), `own_text` is the text held directly by the node, `children` are its
/// direct children in document order, and `shadow_children` are the roots of
/// the encapsulated subtree the node hosts, if any. The text content of a
/// node concatenates its own text with that of its descendants, excluding
/// any shadow subtree.
pub struct TreeNode {
    /// Identity of the node within its tree.
    pub id: u64,
    /// The tag name.
    pub tag: String,
    /// The `class` attribute; empty when missing.
    pub class_attr: String,
    /// The `role` attribute; empty when missing.
    pub role_attr: String,
    /// The `aria-label` attribute; empty when missing.
    pub aria_label: String,
    /// The text held directly by this node.
    pub own_text: String,
    /// Direct children, in document order.
    pub children: Vec<TreeNode>,
    /// Roots of the shadow subtree hosted by this node; empty when the node
    /// hosts none.
    pub shadow_children: Vec<TreeNode>,
}

/// The node behind an optional reference, as a value.
pub open spec fn opt_node_view(p: Option<&TreeNode>) -> Option<TreeNode> {
    match p {
        Option::Some(r) => Option::Some(*r),
        Option::None => Option::None,
    }
}

/// The concatenated text content of a node: its own text followed by the
/// text content of each child, in document order. Shadow subtrees do not
/// contribute.
pub open spec fn text_of(n: TreeNode) -> Seq<char>
    decreases n,
{
    n.own_text@ + text_of_list(n.children@)
}

/// The concatenated text content of a sequence of nodes.
pub open spec fn text_of_list(s: Seq<TreeNode>) -> Seq<char>
    decreases s,
{
    if s.len() == 0 {
        Seq::empty()
    } else {
        text_of(s[0]) + text_of_list(s.drop_first())
    }
}

/// Appending a node to a sequence appends its text content.
pub proof fn lemma_text_of_list_push(s: Seq<TreeNode>, x: TreeNode)
    ensures
        text_of_list(s.push(x)) == text_of_list(s) + text_of(x),
    decreases s.len(),
{
    if s.len() == 0 {
        assert(s.push(x)[0] == x);
        assert(s.push(x).drop_first() =~= Seq::<TreeNode>::empty());
        assert(text_of_list(Seq::<TreeNode>::empty()) == Seq::<char>::empty());
        assert(text_of_list(s.push(x)) =~= text_of_list(s) + text_of(x));
    } else {
        assert(s.push(x)[0] == s[0]);
        assert(s.push(x).drop_first() =~= s.drop_first().push(x));
        lemma_text_of_list_push(s.drop_first(), x);
        assert(text_of_list(s.push(x)) =~= text_of_list(s) + text_of(x));
    }
}

/// The identities of every node of the subtree rooted at `n`, shadow
/// subtrees included.
pub open spec fn subtree_ids(n: TreeNode) -> Set<u64>
    decreases n,
{
    set![n.id].union(subtree_ids_list(n.children@)).union(subtree_ids_list(n.shadow_children@))
}

/// The identities of every node of the subtrees rooted at the nodes of `s`.
pub open spec fn subtree_ids_list(s: Seq<TreeNode>) -> Set<u64>
    decreases s,
{
    if s.len() == 0 {
        Set::empty()
    } else {
        subtree_ids(s[0]).union(subtree_ids_list(s.drop_first()))
    }
}

impl TreeNode {
    /// The concatenated text of this node and all its descendants, shadow
    /// subtrees excluded.
    pub fn text_content(&self) -> (r: String)
        ensures
            r@ == text_of(*self),
        decreases *self,
    {
        let mut r: String = self.own_text.clone();
        let n = self.children.len();
        let mut i: usize = 0;
        while i < n
            invariant
                n == self.children.len(),
                0 <= i <= n,
                r@ == self.own_text@ + text_of_list(self.children@.take(i as int)),
            decreases n - i,
        {
            let t = self.children[i].text_content();
            r.append(t.as_str());
            proof {
                lemma_text_of_list_push(self.children@.take(i as int), self.children@[i as int]);
                assert(self.children@.take(i + 1) =~= self.children@.take(i as int).push(
                    self.children@[i as int],
                ));
            }
            i = i + 1;
        }
        proof {
            assert(self.children@.take(n as int) =~= self.children@);
        }
        r
    }
}

} // verus!
