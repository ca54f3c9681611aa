//! Directives that keep a rule from looking at an element.
//!
//! A `{# ludtwig-ignore #}` comment covers the element that follows it, with everything below
//! that element. It can name the rules that it is meant for.
use vstd::prelude::*;
use crate::kind::SyntaxKind;
use crate::nodes::{ints, lemma_child_nodes, lemma_child_tokens};
use crate::text::same_text;
use crate::tree::{SyntaxTree, Tree};

verus! {

/// Whether the rule list at `list` names `rule`.
pub open spec fn names_rule(t: Tree, list: int, rule: Seq<char>) -> bool {
    exists|i: int|
        0 <= i < t.child_tokens(list).len() && t.kind(#[trigger] t.child_tokens(list)[i])
            == SyntaxKind::TK_WORD && t.token_text(t.child_tokens(list)[i]) == rule
}

/// Whether the node at `d` is an ignore directive for `rule`: it has no rule list, or one that
/// names the rule.
pub open spec fn directive_applies(t: Tree, d: int, rule: Seq<char>) -> bool {
    &&& t.kind(d) == SyntaxKind::LUDTWIG_DIRECTIVE_IGNORE
    &&& t.child_of_kind(d, SyntaxKind::LUDTWIG_DIRECTIVE_RULE_LIST) matches Some(list)
        ==> names_rule(t, list, rule)
}

/// Whether the node at `n` directly follows an ignore directive for `rule`.
pub open spec fn follows_directive(t: Tree, n: int, rule: Seq<char>) -> bool {
    &&& t.parent(n) matches Some(p)
    &&& exists|i: int|
        0 < i < t.child_nodes(p).len() && #[trigger] t.child_nodes(p)[i] == n && directive_applies(
            t,
            t.child_nodes(p)[i - 1],
            rule,
        )
}

/// Whether a walk from the node at `root` leaves out the subtree of the node at `a`: the node is
/// an error, or it follows an ignore directive for `rule` below `root`.
pub open spec fn left_out(t: Tree, root: int, a: int, rule: Seq<char>) -> bool {
    t.kind(a) == SyntaxKind::ERROR || (a != root && follows_directive(t, a, rule))
}

/// Whether a walk from the node at `root` comes to the element at `n`.
pub open spec fn is_shown(t: Tree, root: int, n: int, rule: Seq<char>) -> bool {
    &&& t.encloses(root, n)
    &&& forall|a: int| #[trigger] t.encloses(a, n) && root <= a ==> !left_out(t, root, a, rule)
}

fn list_names_rule(tree: &SyntaxTree, list: usize, rule: &str) -> (names: bool)
    requires
        tree@.valid(),
        tree@.is_node(list as int),
    ensures
        names == names_rule(tree@, list as int, rule@),
{
    let tokens = tree.tokens(list);
    let ghost s = tree@.child_tokens(list as int);
    proof {
        lemma_child_tokens(tree@, list as int);
    }
    let mut i: usize = 0;
    while i < tokens.len()
        invariant
            i <= tokens.len(),
            s == tree@.child_tokens(list as int),
            s == ints(tokens@),
            forall|k: int| 0 <= k < s.len() ==> tree@.is_token(#[trigger] s[k]),
            forall|k: int|
                0 <= k < i ==> tree@.kind(#[trigger] s[k]) != SyntaxKind::TK_WORD
                    || tree@.token_text(s[k]) != rule@,
        decreases tokens.len() - i,
    {
        assert(s[i as int] == tokens[i as int]);
        assert(tree@.is_token(s[i as int]));
        if tree.kind(tokens[i]) == SyntaxKind::TK_WORD && same_text(
            tree.token_text(tokens[i]),
            rule,
        ) {
            return true;
        }
        i += 1;
    }
    false
}

/// Whether the node at `node` directly follows an ignore directive for the rule `rule`.
pub fn check_for_rule_ignore(tree: &SyntaxTree, node: usize, rule: &str) -> (ignored: bool)
    requires
        tree@.valid(),
        tree@.is_node(node as int),
    ensures
        ignored == follows_directive(tree@, node as int, rule@),
{
    let ghost t = tree@;
    let Some(parent) = tree.parent(node) else {
        return false;
    };
    let ghost p = parent as int;
    assert(node > 0);
    let siblings = tree.children(parent);
    let ghost s = t.child_nodes(p);
    proof {
        lemma_child_nodes(t, p);
    }
    let mut i: usize = 1;
    while i < siblings.len()
        invariant
            1 <= i,
            t == tree@,
            t.valid(),
            t.is_node(node as int),
            t.parent(node as int) == Some(p),
            s == t.child_nodes(p),
            s == ints(siblings@),
            forall|k: int| 0 <= k < s.len() ==> t.is_node(#[trigger] s[k]),
            forall|k: int, j: int| 0 <= k < j < s.len() ==> s[k] < s[j],
            forall|k: int| 0 < k < i && k < s.len() ==> #[trigger] s[k] != node,
        decreases siblings.len() - i,
    {
        assert(s[i as int] == siblings[i as int]);
        if siblings[i] == node {
            let before: usize = siblings[i - 1];
            proof {
                assert(s[i - 1] == before);
                assert(t.is_node(s[i - 1]));
                assert forall|k: int| 0 <= k < s.len() && #[trigger] s[k] == node implies k
                    == i by {
                    if k < i {
                        assert(s[k] < s[i as int]);
                    } else if i < k {
                        assert(s[i as int] < s[k]);
                    }
                }
            }
            if tree.kind(before) != SyntaxKind::LUDTWIG_DIRECTIVE_IGNORE {
                return false;
            }
            return match tree.child_of_kind(before, SyntaxKind::LUDTWIG_DIRECTIVE_RULE_LIST) {
                Some(list) => list_names_rule(tree, list, rule),
                None => true,
            };
        }
        i += 1;
    }
    false
}

} // verus!
