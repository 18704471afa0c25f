//! The element snapshot extractor: an immutable record of a node's
//! identifying attributes, text, parent context and sibling position, built
//! on demand from the tree model. Extraction never fails: a missing
//! attribute or parent becomes an empty string or zero.
use vstd::prelude::*;
use crate::node::TreeNode;
use crate::node::opt_node_view;
use crate::node::text_of;

verus! {

/// The data of a button element, as captured at extraction time.
#[derive(Clone)]
pub struct ButtonData {
    /// The class attribute of the button element.
    pub class: String,
    /// The aria-label attribute of the button element.
    pub aria_label: String,
    /// The role attribute of the button element.
    pub role: String,
    /// The text content of the button element.
    pub text: String,
    /// The class attribute of the parent element of the button element.
    pub parent_class: String,
    /// The position of the button element within its parent element.
    pub position: usize,
}

/// The mathematical content of a [`ButtonData`].
pub struct ButtonDataView {
    pub class: Seq<char>,
    pub aria_label: Seq<char>,
    pub role: Seq<char>,
    pub text: Seq<char>,
    pub parent_class: Seq<char>,
    pub position: nat,
}

impl View for ButtonData {
    type V = ButtonDataView;

    open spec fn view(&self) -> ButtonDataView {
        ButtonDataView {
            class: self.class@,
            aria_label: self.aria_label@,
            role: self.role@,
            text: self.text@,
            parent_class: self.parent_class@,
            position: self.position as nat,
        }
    }
}

/// The index of the first node of `s` whose identity is `id`, or `-1` when
/// none carries it.
pub open spec fn first_index_with_id(s: Seq<TreeNode>, id: u64) -> int
    decreases s.len(),
{
    if s.len() == 0 {
        -1
    } else if s[0].id == id {
        0
    } else {
        let r = first_index_with_id(s.drop_first(), id);
        if r == -1 {
            -1
        } else {
            r + 1
        }
    }
}

/// `first_index_with_id` returns `-1` or a valid index of `s`.
pub proof fn lemma_first_index_bounds(s: Seq<TreeNode>, id: u64)
    ensures
        -1 <= first_index_with_id(s, id) < s.len(),
    decreases s.len(),
{
    if s.len() > 0 {
        lemma_first_index_bounds(s.drop_first(), id);
    }
}

/// `first_index_with_id` returns `-1` exactly when no node of `s` carries
/// the identity.
pub proof fn lemma_first_index_none(s: Seq<TreeNode>, id: u64)
    ensures
        (first_index_with_id(s, id) == -1) <==> (forall|j: int|
            0 <= j < s.len() ==> (#[trigger] s[j]).id != id),
    decreases s.len(),
{
    if s.len() > 0 {
        lemma_first_index_none(s.drop_first(), id);
        lemma_first_index_bounds(s.drop_first(), id);
        if first_index_with_id(s, id) == -1 {
            assert forall|j: int| 0 <= j < s.len() implies (#[trigger] s[j]).id != id by {
                if j > 0 {
                    assert(s.drop_first()[j - 1].id != id);
                    assert(s.drop_first()[j - 1] == s[j]);
                }
            }
        }
        if forall|j: int| 0 <= j < s.len() ==> (#[trigger] s[j]).id != id {
            assert forall|j: int|
                0 <= j < s.drop_first().len() implies (#[trigger] s.drop_first()[j]).id != id by {
                assert(s.drop_first()[j] == s[j + 1]);
                assert(s[j + 1].id != id);
            }
            assert(first_index_with_id(s.drop_first(), id) == -1);
        }
    }
}

/// When `s[i]` is the first node with the identity, `first_index_with_id`
/// returns `i`.
pub proof fn lemma_first_index_found(s: Seq<TreeNode>, id: u64, i: int)
    requires
        0 <= i < s.len(),
        s[i].id == id,
        forall|j: int| 0 <= j < i ==> (#[trigger] s[j]).id != id,
    ensures
        first_index_with_id(s, id) == i,
    decreases s.len(),
{
    if i > 0 {
        assert(forall|j: int|
            0 <= j < s.drop_first().len() ==> #[trigger] s.drop_first()[j] == s[j + 1]);
        lemma_first_index_found(s.drop_first(), id, i - 1);
    }
}

/// The 0-based position of `node` among the direct children of its parent
/// at extraction time, or zero when it has no parent or is not found among
/// the parent's children.
pub open spec fn position_of(node: TreeNode, parent: Option<TreeNode>) -> nat {
    match parent {
        Option::None => 0,
        Option::Some(p) => {
            let r = first_index_with_id(p.children@, node.id);
            if r == -1 {
                0
            } else {
                r as nat
            }
        },
    }
}

/// The snapshot taken of `node` under `parent`: its class, aria-label and
/// role attributes, its concatenated text content, the parent's class
/// attribute (empty without a parent), and its position among the parent's
/// children.
pub open spec fn snapshot_of(node: TreeNode, parent: Option<TreeNode>) -> ButtonDataView {
    ButtonDataView {
        class: node.class_attr@,
        aria_label: node.aria_label@,
        role: node.role_attr@,
        text: text_of(node),
        parent_class: match parent {
            Option::Some(p) => p.class_attr@,
            Option::None => Seq::empty(),
        },
        position: position_of(node, parent),
    }
}

impl ButtonData {
    /// Builds the snapshot of `node` under `parent`. A missing parent
    /// yields an empty parent class and position zero; so does a node not
    /// found among its parent's children. The position compares node
    /// identity, not value, by a linear scan of the parent's child list.
    pub fn from_element(node: &TreeNode, parent: Option<&TreeNode>) -> (data: ButtonData)
        ensures
            data@ == snapshot_of(*node, opt_node_view(parent)),
            parent is None ==> data@.position == 0 && data@.parent_class == Seq::<char>::empty(),
    {
        let text = node.text_content();
        match parent {
            Option::None => ButtonData {
                class: node.class_attr.clone(),
                aria_label: node.aria_label.clone(),
                role: node.role_attr.clone(),
                text,
                parent_class: String::new(),
                position: 0,
            },
            Option::Some(p) => {
                let n = p.children.len();
                let mut position: usize = 0;
                let mut i: usize = 0;
                let mut found = false;
                while i < n && !found
                    invariant
                        0 <= i <= n,
                        n == p.children@.len(),
                        !found ==> position == 0 && forall|j: int|
                            0 <= j < i ==> (#[trigger] p.children@[j]).id != node.id,
                        found ==> 0 <= position < i && p.children@[position as int].id == node.id
                            && forall|j: int|
                            0 <= j < position ==> (#[trigger] p.children@[j]).id != node.id,
                    decreases n - i,
                {
                    if p.children[i].id == node.id {
                        position = i;
                        found = true;
                    }
                    i = i + 1;
                }
                proof {
                    if found {
                        lemma_first_index_found(p.children@, node.id, position as int);
                    } else {
                        lemma_first_index_none(p.children@, node.id);
                    }
                }
                ButtonData {
                    class: node.class_attr.clone(),
                    aria_label: node.aria_label.clone(),
                    role: node.role_attr.clone(),
                    text,
                    parent_class: p.class_attr.clone(),
                    position,
                }
            },
        }
    }
}

} // verus!
