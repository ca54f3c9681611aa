//! Reading syntax trees that the `rowan` crate holds, and its comparison of nodes and text ranges.
use vstd::prelude::*;
use crate::tree::{
    Step, SyntaxTree, TextRange, Tree, WalkStep, lemma_offset_monotone, nested, step_views,
    walked_len,
};

verus! {

/// `rowan`'s immutable tree of nodes and tokens.
#[verifier::external_type_specification]
#[verifier::external_body]
pub struct ExGreenNode(rowan::GreenNode);

/// The steps of `rowan`'s walk over a green tree, each element before its children.
pub uninterp spec fn green_walk(green: rowan::GreenNode) -> Seq<Step>;

/// For each element of the walk over a green tree a number that stands for what `rowan` compares
/// elements by: the green node or token in that place and its offset in the text. A green tree can
/// hold one green node in several places; which ones is fixed when the tree is made.
pub uninterp spec fn green_keys(green: rowan::GreenNode) -> Seq<int>;

/// Whether `keys` can be the keys of the elements of the tree `t`: nodes with the same key look the
/// same, and the nodes below them have the same keys too.
pub open spec fn keys_fit(t: Tree, keys: Seq<int>) -> bool {
    &&& keys.len() == t.len()
    &&& forall|i: int, j: int|
        t.is_node(i) && t.is_node(j) && keys[i] == keys[j] ==> #[trigger] t.alike(i, j)
    &&& forall|i: int, j: int, k: int|
        #![trigger keys[i], keys[j], keys[i + k]]
        t.is_node(i) && t.is_node(j) && keys[i] == keys[j] && 0 <= k < t.end(i) - i && t.is_node(
            i + k,
        ) ==> keys[i + k] == keys[j + k]
}

/// Walks over the tree with `rowan::cursor::SyntaxNode::preorder_with_tokens`.
///
/// Claimed: which steps come depends on the green tree alone, and they walk over one tree. The
/// walk begins with the root node, enters the first child of a node or else leaves it, leaves a
/// token right after entering it, goes on from an element that was left to its next sibling or
/// else leaves its parent, and stops when the root is left. Which kinds and texts the elements
/// have is what `green_walk` stands for. Of the keys of the elements it is claimed that there is
/// one for each element, that nodes with the same key begin at the same offset and have the same
/// elements below them, since they are one green node, and that the nodes below them have the same
/// keys in turn.
#[verifier::external_body]
fn walk_green(green: &rowan::GreenNode) -> (steps: Vec<WalkStep>)
    ensures
        step_views(steps@) == green_walk(*green),
        nested(step_views(steps@)),
        forall|t: Tree|
            t.well_formed() && #[trigger] t.walk() == step_views(steps@) ==> keys_fit(
                t,
                green_keys(*green),
            ),
{
    rowan::cursor::SyntaxNode::new_root(green.clone())
        .preorder_with_tokens()
        .map(|event| match event {
            rowan::WalkEvent::Enter(rowan::NodeOrToken::Node(node)) => {
                WalkStep::EnterNode(node.kind().0)
            },
            rowan::WalkEvent::Enter(rowan::NodeOrToken::Token(token)) => {
                WalkStep::EnterToken(token.kind().0, token.text().to_string())
            },
            rowan::WalkEvent::Leave(_) => WalkStep::Leave,
        })
        .collect()
}

/// Compares two elements of the tree with the `==` of `rowan::cursor::SyntaxNode`. They are given
/// by their number in the walk over the tree.
///
/// Claimed: it answers whether their keys are the same.
#[verifier::external_body]
fn is_same_element(green: &rowan::GreenNode, i: usize, j: usize) -> (same: bool)
    requires
        i < green_keys(*green).len(),
        j < green_keys(*green).len(),
    ensures
        same == (green_keys(*green)[i as int] == green_keys(*green)[j as int]),
{
    let root = rowan::cursor::SyntaxNode::new_root(green.clone());
    root.descendants_with_tokens().nth(i) == root.descendants_with_tokens().nth(j)
}

/// Compares the ranges with `rowan::TextRange::contains_range`.
///
/// Claimed: it answers whether `outer` begins no later and ends no earlier than `inner`. Making a
/// `rowan::TextRange` panics if it ends before it begins.
#[verifier::external_body]
fn range_contains(outer: TextRange, inner: TextRange) -> (contains: bool)
    requires
        outer.start <= outer.end,
        inner.start <= inner.end,
    ensures
        contains == (outer.start <= inner.start && inner.end <= outer.end),
{
    rowan::TextRange::new(outer.start.into(), outer.end.into())
        .contains_range(rowan::TextRange::new(inner.start.into(), inner.end.into()))
}

impl TextRange {
    /// Whether `other` lies within this range.
    pub open spec fn covers(self, other: TextRange) -> bool {
        self.start <= other.start && other.end <= self.end
    }

    /// Whether `other` lies within this range.
    pub fn contains_range(self, other: TextRange) -> (contains: bool)
        requires
            self.start <= self.end,
            other.start <= other.end,
        ensures
            contains == self.covers(other),
    {
        range_contains(self, other)
    }
}

/// What is known of the first elements that the first `n` elements of a tree are taken for.
spec fn leads_fit(t: Tree, keys: Seq<int>, leads: Seq<usize>, n: int) -> bool {
    &&& leads.len() == n
    &&& forall|a: int|
        0 <= a < n ==> {
            &&& #[trigger] leads[a] <= a
            &&& leads[leads[a] as int] == leads[a]
            &&& leads[a] == a || (t.is_node(a) && t.is_node(leads[a] as int))
        }
    &&& forall|a: int, b: int|
        0 <= a < n && 0 <= b < n && t.is_node(a) && t.is_node(b) ==> (#[trigger] leads[a]
            == #[trigger] leads[b] <==> keys[a] == keys[b])
}

/// The last node before the one at `node` that `rowan` takes for the same.
fn previous_same(tree: &SyntaxTree, green: &rowan::GreenNode, node: usize) -> (found: Option<usize>)
    requires
        tree@.well_formed(),
        keys_fit(tree@, green_keys(*green)),
        tree@.is_node(node as int),
    ensures
        match found {
            Some(j) => j < node && tree@.is_node(j as int) && green_keys(*green)[j as int]
                == green_keys(*green)[node as int],
            None => forall|j: int|
                0 <= j < node && tree@.is_node(j) ==> #[trigger] green_keys(*green)[j]
                    != green_keys(*green)[node as int],
        },
{
    let ghost t = tree@;
    let ghost keys = green_keys(*green);
    let ghost n = node as int;
    let mut j: usize = node;
    while j > 0 && tree.text_range(j - 1).start == tree.text_range(node).start
        invariant
            t == tree@,
            keys == green_keys(*green),
            t.well_formed(),
            keys_fit(t, keys),
            n == node,
            t.is_node(n),
            j <= node,
            forall|k: int| j <= k < n && t.is_node(k) ==> #[trigger] keys[k] != keys[n],
        decreases j,
    {
        j -= 1;
        // Nodes that are the same have as much below them, so there is no need to ask about others.
        proof {
            assert(t.entries[j as int].end > j && t.entries[n].end > n);
            if t.is_node(j as int) && keys[j as int] == keys[n] {
                assert(t.alike(j as int, n));
            }
        }
        if tree.is_node(j) && tree.end(j) - j == tree.end(node) - node && is_same_element(
            green,
            j,
            node,
        ) {
            return Some(j);
        }
    }
    proof {
        assert forall|k: int| 0 <= k < n && t.is_node(k) implies #[trigger] keys[k] != keys[n] by {
            if k < j && keys[k] == keys[n] {
                assert(t.alike(k, n));
                assert(t.entries[k].range.start == t.entries[n].range.start);
                lemma_offset_monotone(t.entries, k, j - 1);
                lemma_offset_monotone(t.entries, j - 1, n);
                assert(t.entries[j - 1].range.start == t.entries[n].range.start);
            }
        }
    }
    None
}

/// For each element of the tree the first one that `rowan` takes for the same.
fn find_leads(tree: &SyntaxTree, green: &rowan::GreenNode) -> (leads: Vec<usize>)
    requires
        tree@.well_formed(),
        keys_fit(tree@, green_keys(*green)),
    ensures
        leads_fit(tree@, green_keys(*green), leads@, tree@.len()),
{
    let n: usize = tree.len();
    let mut leads: Vec<usize> = Vec::new();
    while leads.len() < n
        invariant
            n == tree@.len(),
            leads.len() <= n,
            tree@.well_formed(),
            keys_fit(tree@, green_keys(*green)),
            leads_fit(tree@, green_keys(*green), leads@, leads.len() as int),
        decreases n - leads.len(),
    {
        let ghost before = leads@;
        let i: usize = leads.len();
        let mut lead: usize = i;
        if tree.is_node(i) {
            if let Some(j) = previous_same(tree, green, i) {
                assert(before[j as int] <= j);
                lead = leads[j];
            }
        }
        leads.push(lead);
        proof {
            assert forall|a: int| 0 <= a < i + 1 implies #[trigger] leads[a] <= a && leads[
                leads[a] as int
            ] == leads[a] && (leads[a] == a || (tree@.is_node(a) && tree@.is_node(
                leads[a] as int,
            ))) by {
                if a < i {
                    assert(leads[a] == before[a]);
                    assert(before[before[a] as int] == before[a]);
                }
            }
            assert forall|a: int, b: int|
                0 <= a < i + 1 && 0 <= b < i + 1 && tree@.is_node(a) && tree@.is_node(
                    b,
                ) implies (#[trigger] leads[a] == #[trigger] leads[b] <==> green_keys(*green)[a]
                == green_keys(*green)[b]) by {
                if a < i {
                    assert(leads[a] == before[a] && before[a] <= a);
                }
                if b < i {
                    assert(leads[b] == before[b] && before[b] <= b);
                }
            }
        }
    }
    leads
}

impl SyntaxTree {
    /// Reads the tree that `green` holds. Nodes in it are taken for the same if `rowan` does so.
    ///
    /// There is none only if the text is longer than a `TextRange` can say.
    pub fn from_green(green: &rowan::GreenNode) -> (tree: Option<SyntaxTree>)
        ensures
            tree is Some <==> walked_len(green_walk(*green), green_walk(*green).len() as int)
                <= u32::MAX,
            tree matches Some(t) ==> t@.valid() && t@.walk() == green_walk(*green) && forall|
                i: int,
                j: int,
            |
                t@.is_node(i) && t@.is_node(j) ==> (#[trigger] t@.same(i, j) <==> green_keys(
                    *green,
                )[i] == green_keys(*green)[j]),
    {
        let Some(tree) = SyntaxTree::from_walk(walk_green(green)) else {
            return None;
        };
        let ghost before = tree@;
        let ghost keys = green_keys(*green);
        assert(keys_fit(before, keys));
        let leads = find_leads(&tree, green);
        let ghost found = leads@;
        let tree = tree.with_leads(leads);
        proof {
            let t = tree@;
            assert(t.walk() == before.walk());
            assert forall|i: int, j: int| t.is_node(i) && t.is_node(j) implies (#[trigger] t.same(
                i,
                j,
            ) <==> keys[i] == keys[j]) by {
                assert(t.leads[i] == found[i] && t.leads[j] == found[j]);
            }
            assert forall|i: int| 0 <= i < t.len() implies 0 <= #[trigger] t.leads[i] <= i
                && t.leads[t.leads[i]] == t.leads[i] && (t.leads[i] == i || (t.is_node(i)
                && t.is_node(t.leads[i]))) by {
                assert(t.leads[i] == found[i]);
                assert(found[found[i] as int] == found[i]);
            }
            assert forall|i: int, j: int|
                t.is_node(i) && t.is_node(j) && t.same(i, j) implies #[trigger] t.alike(i, j) by {
                assert(keys[i] == keys[j]);
                assert(before.alike(i, j));
                assert forall|k: int| 0 <= k < t.end(i) - i implies #[trigger] t.alike_at(
                    i,
                    j,
                    k,
                ) by {
                    assert(before.alike_at(i, j, k));
                }
            }
            assert forall|i: int, j: int, k: int|
                t.is_node(i) && t.is_node(j) && t.same(i, j) && 0 <= k < t.end(i) - i implies
            #[trigger] t.same_at(i, j, k) by {
                assert(keys[i] == keys[j]);
                assert(before.alike(i, j));
                assert(before.alike_at(i, j, k));
                assert(t.entries[j].end <= t.len());
                if t.is_node(i + k) {
                    assert(t.is_node(j + k));
                    assert(keys[i + k] == keys[j + k]);
                    assert(t.same(i + k, j + k));
                }
            }
        }
        Some(tree)
    }
}

} // verus!
