//! Two HTML elements of a page must not have the same id.
use vstd::prelude::*;
use crate::ignore::{check_for_rule_ignore, follows_directive, is_shown, left_out};
use crate::kind::SyntaxKind;
use crate::nodes::{
    first, int_of, ints, lemma_child_nodes, lemma_child_tokens, lemma_encloser_has_text,
    lemma_encloses_parent, lemma_first, lemma_first_step, lemma_same_children,
    text_tells_nodes_apart,
};
use crate::rule::{CheckResult, Finding, Note, RuleRunContext, Severity, findings};
use crate::text::{byte_len, concat3, lemma_byte_len_positive, same_text};
use crate::tree::{SyntaxTree, Tree, lemma_offset_monotone, offset_of};
use crate::twig_deprecated_feature_guard::{body_runs, is_body_of, is_reached};

verus! {

/// The test for bodies whose text range contains that of the node at `n`.
pub open spec fn body_around(t: Tree, n: int) -> spec_fn(int) -> bool {
    |c: int| t.kind(c) == SyntaxKind::BODY && t.range(c).covers(t.range(n))
}

/// The body of the `if` at `c` whose text range contains that of the node at `n`.
pub open spec fn branch_of(t: Tree, c: int, n: int) -> Option<int> {
    first(t.child_nodes(c), body_around(t, n))
}

/// Whether the node at `c` is taken for one that the node at `n` is or is below.
pub open spec fn is_around(t: Tree, c: int, n: int) -> bool {
    exists|y: int| #[trigger] t.encloses(y, n) && t.same(y, c)
}

/// Whether the `if` at `c` around the node at `a` is around the node at `b` too, with the two in
/// different branches.
pub open spec fn separates(t: Tree, c: int, a: int, b: int) -> bool {
    &&& t.kind(c) == SyntaxKind::TWIG_IF
    &&& t.encloses(c, a)
    &&& is_around(t, c, b)
    &&& branch_of(t, c, a) matches Some(x)
    &&& branch_of(t, c, b) matches Some(y)
    &&& !t.same(x, y)
}

/// Whether some `if` has the nodes at `a` and `b` in different branches.
pub open spec fn apart(t: Tree, a: int, b: int) -> bool {
    exists|c: int| #[trigger] separates(t, c, a, b)
}

proof fn lemma_ranges(t: Tree)
    requires
        t.valid(),
    ensures
        forall|i: int| 0 <= i < t.len() ==> (#[trigger] t.range(i)).start <= t.range(i).end,
{
    assert forall|i: int| 0 <= i < t.len() implies (#[trigger] t.range(i)).start <= t.range(
        i,
    ).end by {
        lemma_offset_monotone(t.entries, i, t.end(i));
    }
}

/// The body of the `if` at `conditional` whose text range contains that of the node at `node`.
fn branch(tree: &SyntaxTree, conditional: usize, node: usize) -> (body: Option<usize>)
    requires
        tree@.valid(),
        tree@.is_node(conditional as int),
        tree@.is_node(node as int),
    ensures
        int_of(body) == branch_of(tree@, conditional as int, node as int),
        body matches Some(b) ==> tree@.is_node(b as int),
{
    let children = tree.children(conditional);
    let ghost s = tree@.child_nodes(conditional as int);
    let ghost p = body_around(tree@, node as int);
    let mut i: usize = 0;
    proof {
        lemma_ranges(tree@);
        lemma_child_nodes(tree@, conditional as int);
        assert(s.skip(0) == s);
    }
    while i < children.len()
        invariant
            i <= children.len(),
            tree@.is_node(node as int),
            s == ints(children@),
            s == tree@.child_nodes(conditional as int),
            p == body_around(tree@, node as int),
            forall|k: int| 0 <= k < s.len() ==> tree@.is_node(#[trigger] s[k]),
            forall|k: int|
                0 <= k < tree@.len() ==> (#[trigger] tree@.range(k)).start <= tree@.range(k).end,
            first(s.skip(i as int), p) == first(s, p),
        decreases children.len() - i,
    {
        proof {
            lemma_first_step(s, i as int, p);
            assert(tree@.is_node(s[i as int]));
        }
        if tree.kind(children[i]) == SyntaxKind::BODY && tree.text_range(
            children[i],
        ).contains_range(tree.text_range(node)) {
            return Some(children[i]);
        }
        i += 1;
    }
    None
}

/// Whether the node at `conditional` is taken for one that the node at `node` is or is below.
fn has_around(tree: &SyntaxTree, conditional: usize, node: usize) -> (around: bool)
    requires
        tree@.valid(),
        tree@.is_node(conditional as int),
        tree@.is_node(node as int),
    ensures
        around == is_around(tree@, conditional as int, node as int),
{
    let ghost t = tree@;
    let ghost c = conditional as int;
    let ghost n = node as int;
    let mut ancestor: usize = node;
    loop
        invariant
            t == tree@,
            t.valid(),
            c == conditional,
            n == node,
            t.is_node(c),
            t.is_node(n),
            t.encloses(ancestor as int, n),
            forall|y: int| #[trigger]
                t.encloses(y, n) && t.same(y, c) ==> t.encloses(y, ancestor as int),
        decreases ancestor,
    {
        if tree.same_node(ancestor, conditional) {
            return true;
        }
        proof {
            assert forall|y: int| #[trigger] t.encloses(y, n) && t.same(y, c) implies t.parent(
                ancestor as int,
            ) is Some && t.encloses(y, t.parent(ancestor as int)->0) by {
                lemma_encloses_parent(t, y, ancestor as int);
            }
        }
        match tree.parent(ancestor) {
            Some(parent) => {
                proof {
                    assert(ancestor > 0);
                    lemma_encloses_parent(t, parent as int, ancestor as int);
                    assert(t.end(ancestor as int) <= t.end(parent as int));
                }
                ancestor = parent;
            },
            None => {
                return false;
            },
        }
    }
}

/// Whether some `if` has the nodes at `first` and `second` in different branches.
pub fn in_different_if_branches(tree: &SyntaxTree, first: usize, second: usize) -> (different: bool)
    requires
        tree@.valid(),
        tree@.is_node(first as int),
        tree@.is_node(second as int),
    ensures
        different == apart(tree@, first as int, second as int),
{
    let ghost t = tree@;
    let ghost a = first as int;
    let ghost b = second as int;
    let mut ancestor: usize = first;
    loop
        invariant
            t == tree@,
            t.valid(),
            a == first,
            b == second,
            t.is_node(a),
            t.is_node(b),
            t.encloses(ancestor as int, a),
            forall|c: int| #[trigger] separates(t, c, a, b) ==> t.encloses(c, ancestor as int),
        decreases ancestor,
    {
        if tree.kind(ancestor) == SyntaxKind::TWIG_IF && has_around(tree, ancestor, second) {
            if let (Some(first_branch), Some(second_branch)) = (
                branch(tree, ancestor, first),
                branch(tree, ancestor, second),
            ) {
                if !tree.same_node(first_branch, second_branch) {
                    assert(separates(t, ancestor as int, a, b));
                    return true;
                }
            }
        }
        proof {
            assert forall|c: int| #[trigger] separates(t, c, a, b) implies t.parent(
                ancestor as int,
            ) is Some && t.encloses(c, t.parent(ancestor as int)->0) by {
                lemma_encloses_parent(t, c, ancestor as int);
            }
        }
        match tree.parent(ancestor) {
            Some(parent) => {
                proof {
                    assert(ancestor > 0);
                    lemma_encloses_parent(t, parent as int, ancestor as int);
                    assert(t.end(ancestor as int) <= t.end(parent as int));
                }
                ancestor = parent;
            },
            None => {
                return false;
            },
        }
    }
}

/// The value of the attribute at `n`, without quotes, if it is an `id` that is the same whenever
/// the template is rendered: it has no nodes in it, and it is not empty.
pub open spec fn static_id(t: Tree, n: int) -> Option<int> {
    if t.is_node(n) && t.kind(n) == SyntaxKind::HTML_ATTRIBUTE {
        match (
            t.token_of_kind(n, SyntaxKind::TK_WORD),
            t.child_of_kind(n, SyntaxKind::HTML_STRING),
        ) {
            (Some(name), Some(value)) => {
                match t.child_of_kind(value, SyntaxKind::HTML_STRING_INNER) {
                    Some(inner) => {
                        if t.token_text(name) == "id"@ && t.child_nodes(inner).len() == 0 && t.text(
                            inner,
                        ).len() > 0 {
                            Some(inner)
                        } else {
                            None
                        }
                    },
                    None => None,
                }
            },
            _ => None,
        }
    } else {
        None
    }
}

/// The id that the attribute at `n` gives.
pub open spec fn id_text(t: Tree, n: int) -> Seq<char> {
    t.text(static_id(t, n)->0)
}

/// The attributes at `lo..hi` that give an id and that a walk from the node at `root` comes to.
pub open spec fn shown_ids(t: Tree, root: int, lo: int, hi: int) -> Seq<int>
    decreases hi - lo,
{
    if lo >= hi {
        Seq::empty()
    } else if static_id(t, hi - 1) is Some && is_shown(t, root, hi - 1, "html-duplicate-id"@) {
        shown_ids(t, root, lo, hi - 1).push(hi - 1)
    } else {
        shown_ids(t, root, lo, hi - 1)
    }
}

/// The test for attributes that give the same id as the one at `n` in a branch that can run
/// together with its own.
pub open spec fn clashes_with(t: Tree, n: int) -> spec_fn(int) -> bool {
    |f: int| id_text(t, f) == id_text(t, n) && !apart(t, f, n)
}

/// The finding for the attribute at `n`, whose id the attribute at `f` gives already.
pub open spec fn duplicate_finding(t: Tree, n: int, f: int) -> Finding {
    Finding {
        rule_name: "html-duplicate-id"@,
        severity: Severity::Warning,
        message: "duplicate HTML element id attribute value"@,
        primary: Some(
            Note {
                range: t.range(static_id(t, n)->0),
                message: "duplicate id '"@ + id_text(t, n) + "'"@,
            },
        ),
        secondary: seq![
            Note { range: t.range(static_id(t, f)->0), message: "first defined here"@ },
        ],
    }
}

/// The findings for a list of attributes: one for each attribute that clashes with an earlier
/// one, with the first that it clashes with.
pub open spec fn duplicates(t: Tree, ids: Seq<int>) -> Seq<Finding>
    decreases ids.len(),
{
    if ids.len() == 0 {
        Seq::empty()
    } else {
        let before = duplicates(t, ids.drop_last());
        match first(ids.drop_last(), clashes_with(t, ids.last())) {
            Some(f) => before.push(duplicate_finding(t, ids.last(), f)),
            None => before,
        }
    }
}

/// The value of the attribute at `n`, without quotes, if it is an `id` without nodes in it.
fn find_static_id(tree: &SyntaxTree, n: usize) -> (inner: Option<usize>)
    requires
        tree@.valid(),
        tree@.is_node(n as int),
    ensures
        int_of(inner) == static_id(tree@, n as int),
        inner matches Some(i) ==> tree@.is_node(i as int),
{
    if tree.kind(n) != SyntaxKind::HTML_ATTRIBUTE {
        return None;
    }
    let Some(name) = tree.token_of_kind(n, SyntaxKind::TK_WORD) else {
        return None;
    };
    if !same_text(tree.token_text(name), "id") {
        return None;
    }
    let Some(value) = tree.child_of_kind(n, SyntaxKind::HTML_STRING) else {
        return None;
    };
    let Some(inner) = tree.child_of_kind(value, SyntaxKind::HTML_STRING_INNER) else {
        return None;
    };
    if tree.children(inner).len() != 0 {
        return None;
    }
    let text = tree.text(inner);
    if text.as_str().is_empty() {
        return None;
    }
    Some(inner)
}

/// The first of the attributes at `earlier` that clashes with the one at `n`.
fn find_clash(tree: &SyntaxTree, earlier: &Vec<usize>, n: usize) -> (found: Option<usize>)
    requires
        tree@.valid(),
        static_id(tree@, n as int) is Some,
        forall|k: int|
            0 <= k < earlier.len() ==> static_id(tree@, #[trigger] earlier[k] as int) is Some,
    ensures
        int_of(found) == first(ints(earlier@), clashes_with(tree@, n as int)),
        found matches Some(f) ==> static_id(tree@, f as int) is Some,
{
    let ghost s = ints(earlier@);
    let ghost p = clashes_with(tree@, n as int);
    let Some(inner) = find_static_id(tree, n) else {
        return None;
    };
    let id = tree.text(inner);
    let mut i: usize = 0;
    assert(s.skip(0) == s);
    while i < earlier.len()
        invariant
            i <= earlier.len(),
            tree@.valid(),
            s == ints(earlier@),
            p == clashes_with(tree@, n as int),
            static_id(tree@, n as int) is Some,
            id@ == id_text(tree@, n as int),
            forall|k: int|
                0 <= k < earlier.len() ==> static_id(tree@, #[trigger] earlier[k] as int) is Some,
            first(s.skip(i as int), p) == first(s, p),
        decreases earlier.len() - i,
    {
        let f: usize = earlier[i];
        proof {
            lemma_first_step(s, i as int, p);
            assert(static_id(tree@, f as int) is Some);
        }
        if let Some(first_inner) = find_static_id(tree, f) {
            if tree.text(first_inner) == id && !in_different_if_branches(tree, f, n) {
                return Some(f);
            }
        }
        i += 1;
    }
    None
}

/// Going on to the next element, nothing around it is left out if nothing was before.
proof fn lemma_walk_on(t: Tree, root: int, here: int, next: int, rule: Seq<char>)
    requires
        t.valid(),
        t.is_node(root),
        root <= here < t.end(root),
        next == here + 1,
        t.is_node(here) ==> !left_out(t, root, here, rule),
        forall|a: int| #[trigger]
            t.encloses(a, here) && root <= a < here ==> !left_out(t, root, a, rule),
    ensures
        forall|a: int| #[trigger]
            t.encloses(a, next) && root <= a < next ==> !left_out(t, root, a, rule),
{
    assert forall|a: int| #[trigger] t.encloses(a, next) && root <= a < next implies !left_out(
        t,
        root,
        a,
        rule,
    ) by {
        assert(t.encloses(a, here));
    }
}

/// After a subtree that is left out, nothing around the next element is left out.
proof fn lemma_skip(t: Tree, root: int, here: int, rule: Seq<char>)
    requires
        t.valid(),
        t.is_node(root),
        t.is_node(here),
        root <= here < t.end(root),
        forall|a: int| #[trigger]
            t.encloses(a, here) && root <= a < here ==> !left_out(t, root, a, rule),
    ensures
        forall|a: int| #[trigger]
            t.encloses(a, t.end(here)) && root <= a < t.end(here) ==> !left_out(t, root, a, rule),
        t.end(here) <= t.end(root),
{
    assert forall|a: int| #[trigger]
        t.encloses(a, t.end(here)) && root <= a < t.end(here) implies !left_out(
        t,
        root,
        a,
        rule,
    ) by {
        if here < a {
            assert(t.end(a) <= t.end(here));
        }
        assert(t.encloses(a, here));
    }
}

/// A subtree that is left out has no attributes that the walk comes to.
proof fn lemma_no_ids_skipped(t: Tree, root: int, here: int, to: int)
    requires
        t.valid(),
        t.is_node(here),
        left_out(t, root, here, "html-duplicate-id"@),
        root <= here <= to <= t.end(here),
    ensures
        shown_ids(t, root, root, to) == shown_ids(t, root, root, here),
    decreases to - here,
{
    if here < to {
        lemma_no_ids_skipped(t, root, here, to - 1);
        assert(t.encloses(here, to - 1));
    }
}

/// Reports id attributes that an element before has too.
pub struct RuleHtmlDuplicateId;

impl RuleHtmlDuplicateId {
    /// The name of the rule.
    pub fn name(&self) -> (name: &'static str)
        ensures
            name@ == "html-duplicate-id"@,
    {
        "html-duplicate-id"
    }

    /// Checks the id attribute at `attribute` against those at `ids` before it, and adds it to
    /// them.
    fn check_attribute(
        &self,
        tree: &SyntaxTree,
        attribute: usize,
        ids: &mut Vec<usize>,
        results: &mut Vec<CheckResult>,
    )
        requires
            tree@.valid(),
            static_id(tree@, attribute as int) is Some,
            forall|k: int|
                0 <= k < old(ids).len() ==> static_id(
                    tree@,
                    #[trigger] old(ids)@[k] as int,
                ) is Some,
            findings(old(results)@) == duplicates(tree@, ints(old(ids)@)),
        ensures
            final(ids)@ == old(ids)@.push(attribute),
            findings(final(results)@) == duplicates(tree@, ints(final(ids)@)),
    {
        let ghost t = tree@;
        let ghost here = attribute as int;
        let ghost before_ids = ints(ids@);
        let ghost before = findings(results@);
        if let Some(f) = find_clash(tree, ids, attribute) {
            if let (Some(inner), Some(first_inner)) = (
                find_static_id(tree, attribute),
                find_static_id(tree, f),
            ) {
                let id = tree.text(inner);
                let result = CheckResult::new(
                    self.name(),
                    Severity::Warning,
                    "duplicate HTML element id attribute value",
                ).primary_note(
                    tree.text_range(inner),
                    concat3("duplicate id '", id.as_str(), "'"),
                ).secondary_note(tree.text_range(first_inner), "first defined here".to_owned());
                assert(result@.secondary == duplicate_finding(t, here, f as int).secondary);
                results.push(result);
                assert(findings(results@) == before.push(duplicate_finding(t, here, f as int)));
            }
        }
        ids.push(attribute);
        proof {
            assert(ints(ids@) == before_ids.push(here));
            assert(ints(ids@).drop_last() == before_ids);
        }
    }

    /// Checks the tree below the node at `node`.
    pub fn check_root(&self, tree: &SyntaxTree, node: usize, _ctx: &RuleRunContext) -> (results:
        Option<Vec<CheckResult>>)
        requires
            tree@.valid(),
            tree@.is_node(node as int),
        ensures
            ({
                let ids = shown_ids(tree@, node as int, node as int, tree@.end(node as int));
                match results {
                    Some(r) => r.len() > 0 && findings(r@) == duplicates(tree@, ids),
                    None => duplicates(tree@, ids).len() == 0,
                }
            }),
    {
        let ghost t = tree@;
        let ghost root = node as int;
        let ghost rule = "html-duplicate-id"@;
        let mut ids: Vec<usize> = Vec::new();
        let mut results: Vec<CheckResult> = Vec::new();
        let hi: usize = tree.end(node);
        let mut i: usize = node;
        proof {
            assert(ints(ids@) == shown_ids(t, root, root, root));
            assert(findings(results@) == duplicates(t, ints(ids@)));
        }
        while i < hi
            invariant
                t == tree@,
                t.valid(),
                root == node,
                t.is_node(root),
                rule == "html-duplicate-id"@,
                hi == t.end(root),
                node <= i <= hi,
                hi <= t.len(),
                ints(ids@) == shown_ids(t, root, root, i as int),
                findings(results@) == duplicates(t, ints(ids@)),
                forall|k: int|
                    0 <= k < ids.len() ==> static_id(t, #[trigger] ids[k] as int) is Some,
                forall|a: int| #[trigger] t.encloses(a, i as int) && root <= a < i ==> !left_out(
                    t,
                    root,
                    a,
                    rule,
                ),
            decreases hi - i,
        {
            let ghost here = i as int;
            if !tree.is_node(i) {
                i += 1;
                proof {
                    lemma_walk_on(t, root, here, here + 1, rule);
                }
            } else if tree.kind(i) == SyntaxKind::ERROR || (i != node && check_for_rule_ignore(
                tree,
                i,
                self.name(),
            )) {
                i = tree.end(i);
                proof {
                    lemma_skip(t, root, here, rule);
                    lemma_no_ids_skipped(t, root, here, t.end(here));
                }
            } else {
                proof {
                    assert(is_shown(t, root, here, rule));
                }
                if find_static_id(tree, i).is_some() {
                    self.check_attribute(tree, i, &mut ids, &mut results);
                }
                i += 1;
                proof {
                    lemma_walk_on(t, root, here, here + 1, rule);
                }
            }
        }
        if results.len() == 0 {
            None
        } else {
            Some(results)
        }
    }
}

// ---- What holds of the findings ----

/// In nodes that are taken for the same, a node has its branch at the same place.
proof fn lemma_branch_of_same(t: Tree, c: int, y: int, n: int)
    requires
        t.valid(),
        t.is_node(c),
        t.is_node(y),
        t.same(c, y),
        branch_of(t, c, n) is Some,
    ensures
        ({
            let x = branch_of(t, c, n)->0;
            &&& branch_of(t, y, n) == Some(x + y - c)
            &&& t.same(x, x + y - c)
        }),
{
    let x = branch_of(t, c, n)->0;
    let p = body_around(t, n);
    let kids = t.child_nodes(c);
    let others = t.child_nodes(y);
    lemma_child_nodes(t, c);
    lemma_child_nodes(t, y);
    lemma_first(kids, p);
    lemma_first(others, p);
    let i = choose|i: int|
        0 <= i < kids.len() && #[trigger] kids[i] == x && p(x) && forall|j: int|
            0 <= j < i ==> !p(#[trigger] kids[j]);
    assert(kids.contains(x));
    let z = x + y - c;
    lemma_same_children(t, c, y, x);
    assert(others.contains(z));
    assert(p(z));
    let k = choose|k: int| 0 <= k < others.len() && others[k] == z;
    assert(p(others[k]));
    let w = branch_of(t, y, n)->0;
    let j = choose|j: int|
        0 <= j < others.len() && #[trigger] others[j] == w && p(w) && forall|h: int|
            0 <= h < j ==> !p(#[trigger] others[h]);
    if j != k {
        // The branch in `y` would be before `z`, and its counterpart in `c` before `x`.
        if k < j {
            assert(!p(others[k]));
        }
        assert(others[j] < others[k]);
        lemma_same_children(t, y, c, w);
        let u = w + c - y;
        assert(kids.contains(u));
        let h = choose|h: int| 0 <= h < kids.len() && kids[h] == u;
        assert(p(kids[h]));
        if i < h {
            assert(kids[i] < kids[h]);
        }
        assert(h < i);
    }
}

proof fn lemma_apart_other_way(t: Tree, a: int, b: int)
    requires
        t.valid(),
        apart(t, a, b),
    ensures
        apart(t, b, a),
{
    let c = choose|c: int| #[trigger] separates(t, c, a, b);
    let y = choose|y: int| #[trigger] t.encloses(y, b) && t.same(y, c);
    lemma_branch_of_same(t, c, y, a);
    lemma_branch_of_same(t, c, y, b);
    assert(t.alike(y, c));
    assert(t.alike_at(y, c, 0));
    assert(t.encloses(c, a) && t.same(c, y));
    assert(separates(t, y, b, a));
}

/// Being in different branches does not depend on the order.
pub proof fn apart_is_symmetric(t: Tree, a: int, b: int)
    requires
        t.valid(),
    ensures
        apart(t, a, b) == apart(t, b, a),
{
    if apart(t, a, b) {
        lemma_apart_other_way(t, a, b);
    }
    if apart(t, b, a) {
        lemma_apart_other_way(t, b, a);
    }
}

/// No node is in a different branch than itself.
pub proof fn no_node_is_apart_from_itself(t: Tree, a: int)
    ensures
        !apart(t, a, a),
{
}

/// A node that encloses another one has a child that encloses it too.
pub proof fn lemma_child_towards(t: Tree, c: int, n: int) -> (child: int)
    requires
        t.valid(),
        t.is_node(n),
        t.encloses(c, n),
        c != n,
    ensures
        t.is_node(child),
        t.parent(child) == Some(c),
        t.encloses(child, n),
    decreases n,
{
    let q = t.parent(n)->0;
    assert(0 <= q < n < t.end(q) && t.is_node(q));
    lemma_encloses_parent(t, c, n);
    if q == c {
        n
    } else {
        let child = lemma_child_towards(t, c, q);
        assert(t.end(q) <= t.end(child));
        child
    }
}

/// The body whose text range contains that of a node with some text is the body that the node is
/// below.
pub proof fn branch_is_the_enclosing_body(t: Tree, c: int, n: int)
    requires
        t.valid(),
        t.is_node(n),
        t.encloses(c, n),
        c != n,
        t.range(n).start < t.range(n).end,
    ensures
        match branch_of(t, c, n) {
            Some(x) => is_body_of(t, c, x) && t.encloses(x, n),
            None => forall|x: int| #[trigger] is_body_of(t, c, x) ==> !t.encloses(x, n),
        },
        forall|x: int| #[trigger]
            is_body_of(t, c, x) && t.encloses(x, n) ==> branch_of(t, c, n) == Some(x),
{
    let y = lemma_child_towards(t, c, n);
    let kids = t.child_nodes(c);
    lemma_child_nodes(t, c);
    lemma_first(kids, body_around(t, n));
    assert(t.end(n) <= t.end(y)) by {
        if n != y {
            assert(y < n < t.end(y));
        }
    }
    lemma_offset_monotone(t.entries, y, n);
    lemma_offset_monotone(t.entries, t.end(n), t.end(y));
    assert(t.range(y).covers(t.range(n)));
    // The range of any other child is before or after that of `y`.
    assert forall|x: int| #[trigger] is_body_of(t, c, x) && t.range(x).covers(
        t.range(n),
    ) implies x == y by {
        if x < y {
            assert(t.end(x) <= y) by {
                assert(t.parent(y)->0 < x < y);
            }
            lemma_offset_monotone(t.entries, t.end(x), y);
        } else if y < x {
            assert(t.end(y) <= x) by {
                assert(t.parent(x)->0 < y < x);
            }
            lemma_offset_monotone(t.entries, t.end(y), x);
        }
    }
    assert forall|x: int| #[trigger] is_body_of(t, c, x) && t.encloses(x, n) implies branch_of(
        t,
        c,
        n,
    ) == Some(x) by {
        if x < y {
            assert(t.end(x) <= y) by {
                assert(t.parent(y)->0 < x < y);
            }
        } else if y < x {
            assert(t.end(y) <= x) by {
                assert(t.parent(x)->0 < y < x);
            }
        }
        assert(x == y);
        assert(kids.contains(y));
        let i = choose|i: int| 0 <= i < kids.len() && kids[i] == y;
        assert(body_around(t, n)(kids[i]));
        let z = branch_of(t, c, n)->0;
        assert(is_body_of(t, c, z) && t.range(z).covers(t.range(n)));
    }
    if let Some(x) = branch_of(t, c, n) {
        assert(is_body_of(t, c, x));
    }
}

/// An attribute that gives an id has some text.
pub proof fn id_attribute_has_text(t: Tree, n: int)
    requires
        t.valid(),
        static_id(t, n) is Some,
    ensures
        t.range(n).start < t.range(n).end,
{
    let name = t.token_of_kind(n, SyntaxKind::TK_WORD)->0;
    lemma_child_tokens(t, n);
    lemma_first(t.child_tokens(n), t.has_kind(SyntaxKind::TK_WORD));
    reveal_strlit("id");
    lemma_byte_len_positive("id"@);
    lemma_offset_monotone(t.entries, n, name);
    lemma_offset_monotone(t.entries, name + 1, t.end(n));
    assert(offset_of(t.entries, name + 1) == offset_of(t.entries, name) + byte_len(
        t.token_text(name),
    ));
}

/// Two attributes that give an id are in different branches exactly if they are below different
/// bodies of one `if`.
pub proof fn apart_means_below_different_bodies(t: Tree, a: int, b: int)
    requires
        t.valid(),
        static_id(t, a) is Some,
        static_id(t, b) is Some,
    ensures
        apart(t, a, b) <==> exists|c: int, x: int, y: int|
            #![trigger is_body_of(t, c, x), is_body_of(t, c, y)]
            t.kind(c) == SyntaxKind::TWIG_IF && is_body_of(t, c, x) && is_body_of(t, c, y) && x != y
                && t.encloses(x, a) && t.encloses(y, b),
{
    id_attribute_has_text(t, a);
    id_attribute_has_text(t, b);
    if apart(t, a, b) {
        let c = choose|c: int| #[trigger] separates(t, c, a, b);
        let y = choose|y: int| #[trigger] t.encloses(y, b) && t.same(y, c);
        lemma_encloser_has_text(t, c, a);
        text_tells_nodes_apart(t, c, y);
        branch_is_the_enclosing_body(t, c, a);
        branch_is_the_enclosing_body(t, c, b);
        let x = branch_of(t, c, a)->0;
        let y = branch_of(t, c, b)->0;
        assert(is_body_of(t, c, x) && is_body_of(t, c, y));
    }
    if exists|c: int, x: int, y: int|
        #![trigger is_body_of(t, c, x), is_body_of(t, c, y)]
        t.kind(c) == SyntaxKind::TWIG_IF && is_body_of(t, c, x) && is_body_of(t, c, y) && x != y
            && t.encloses(x, a) && t.encloses(y, b) {
        let (c, x, y) = choose|c: int, x: int, y: int|
            #![trigger is_body_of(t, c, x), is_body_of(t, c, y)]
            t.kind(c) == SyntaxKind::TWIG_IF && is_body_of(t, c, x) && is_body_of(t, c, y) && x != y
                && t.encloses(x, a) && t.encloses(y, b);
        assert(x > 0 && y > 0);
        assert(c < x < t.end(c) && c < y < t.end(c) && t.is_node(c));
        assert(t.end(x) <= t.end(c) && t.end(y) <= t.end(c));
        branch_is_the_enclosing_body(t, c, a);
        branch_is_the_enclosing_body(t, c, b);
        lemma_encloser_has_text(t, x, a);
        text_tells_nodes_apart(t, x, y);
        assert(t.encloses(c, b) && t.same(c, c));
        assert(separates(t, c, a, b));
    }
}

/// Ids that are found to be in different branches are never rendered together: whichever values
/// the conditions have, at most one of the two is reached.
pub proof fn ids_apart_are_not_reached_together(
    t: Tree,
    a: int,
    b: int,
    flag: Seq<char>,
    others: spec_fn(int) -> bool,
)
    requires
        t.valid(),
        static_id(t, a) is Some,
        static_id(t, b) is Some,
        apart(t, a, b),
    ensures
        !(is_reached(t, a, flag, others) && is_reached(t, b, flag, others)),
{
    apart_means_below_different_bodies(t, a, b);
    let (c, x, y) = choose|c: int, x: int, y: int|
        #![trigger is_body_of(t, c, x), is_body_of(t, c, y)]
        t.kind(c) == SyntaxKind::TWIG_IF && is_body_of(t, c, x) && is_body_of(t, c, y) && x != y
            && t.encloses(x, a) && t.encloses(y, b);
    if is_reached(t, a, flag, others) && is_reached(t, b, flag, others) {
        assert(body_runs(t, c, x, flag, others));
        assert(body_runs(t, c, y, flag, others));
    }
}

/// The attributes that are compared are all those that give an id and that the walk comes to.
pub proof fn shown_ids_are_complete(t: Tree, root: int, lo: int, hi: int)
    requires
        lo <= hi,
    ensures
        forall|n: int| #[trigger]
            shown_ids(t, root, lo, hi).contains(n) <==> lo <= n < hi && static_id(t, n) is Some
                && is_shown(t, root, n, "html-duplicate-id"@),
        forall|i: int, j: int|
            0 <= i < j < shown_ids(t, root, lo, hi).len() ==> shown_ids(t, root, lo, hi)[i]
                < shown_ids(t, root, lo, hi)[j],
    decreases hi - lo,
{
    if lo < hi {
        shown_ids_are_complete(t, root, lo, hi - 1);
        let init = shown_ids(t, root, lo, hi - 1);
        let all = shown_ids(t, root, lo, hi);
        assert forall|n: int| #[trigger] all.contains(n) <==> lo <= n < hi && static_id(
            t,
            n,
        ) is Some && is_shown(t, root, n, "html-duplicate-id"@) by {
            if n == hi - 1 {
                if all != init {
                    assert(all[all.len() - 1] == n);
                }
                assert(!init.contains(n));
            } else {
                if init.contains(n) {
                    let i = choose|i: int| 0 <= i < init.len() && init[i] == n;
                    assert(all[i] == n);
                }
                if all.contains(n) {
                    let i = choose|i: int| 0 <= i < all.len() && all[i] == n;
                    assert(init[i] == n);
                }
            }
        }
        assert forall|i: int, j: int| 0 <= i < j < all.len() implies all[i] < all[j] by {
            assert(all[i] == init[i]);
            assert(init.contains(init[i]));
            if j < init.len() {
                assert(all[j] == init[j]);
            }
        }
    }
}

/// An element that follows an ignore directive for the rule takes part in no comparison, and
/// neither does anything below it.
pub proof fn ignored_ids_are_not_compared(t: Tree, root: int, a: int, n: int)
    requires
        t.valid(),
        root < a,
        t.encloses(a, n),
        follows_directive(t, a, "html-duplicate-id"@),
    ensures
        forall|hi: int|
            root <= hi ==> !(#[trigger] shown_ids(t, root, root, hi)).contains(n),
{
    assert forall|hi: int| root <= hi implies !(#[trigger] shown_ids(
        t,
        root,
        root,
        hi,
    )).contains(n) by {
        shown_ids_are_complete(t, root, root, hi);
        assert(left_out(t, root, a, "html-duplicate-id"@));
    }
}

/// Whether two attributes give the same id and are not in different branches.
pub open spec fn clash(t: Tree, f: int, n: int) -> bool {
    id_text(t, f) == id_text(t, n) && !apart(t, f, n)
}

/// Nothing is reported exactly if no attribute clashes with an earlier one.
pub proof fn nothing_is_reported_iff_nothing_clashes(t: Tree, ids: Seq<int>)
    ensures
        duplicates(t, ids).len() == 0 <==> forall|i: int, j: int|
            0 <= i < j < ids.len() ==> !clash(t, #[trigger] ids[i], #[trigger] ids[j]),
    decreases ids.len(),
{
    if ids.len() > 0 {
        let init = ids.drop_last();
        let last = ids.last();
        let n = ids.len() - 1;
        assert(ids[n] == last);
        nothing_is_reported_iff_nothing_clashes(t, init);
        lemma_first(init, clashes_with(t, last));
        if duplicates(t, ids).len() == 0 {
            assert forall|i: int, j: int| 0 <= i < j < ids.len() implies !clash(
                t,
                #[trigger] ids[i],
                #[trigger] ids[j],
            ) by {
                assert(init[i] == ids[i]);
                if j < n {
                    assert(init[j] == ids[j]);
                } else {
                    assert(!clashes_with(t, last)(init[i]));
                }
            }
        }
        if forall|i: int, j: int|
            0 <= i < j < ids.len() ==> !clash(t, #[trigger] ids[i], #[trigger] ids[j]) {
            assert forall|i: int, j: int| 0 <= i < j < init.len() implies !clash(
                t,
                #[trigger] init[i],
                #[trigger] init[j],
            ) by {
                assert(init[i] == ids[i] && init[j] == ids[j]);
            }
            if let Some(f) = first(init, clashes_with(t, last)) {
                let i = choose|i: int|
                    0 <= i < init.len() && #[trigger] init[i] == f && clashes_with(t, last)(f)
                        && forall|j: int|
                        0 <= j < i ==> !clashes_with(t, last)(#[trigger] init[j]);
                assert(ids[i] == f);
                assert(!clash(t, ids[i], ids[n]));
            }
        }
    }
}

/// Every finding is about an attribute and the first earlier one that it clashes with.
pub proof fn findings_name_the_first_clash(t: Tree, ids: Seq<int>, k: int)
    requires
        0 <= k < duplicates(t, ids).len(),
    ensures
        exists|i: int, j: int|
            0 <= i < j < ids.len() && clash(t, ids[i], ids[j]) && duplicates(t, ids)[k]
                == #[trigger] duplicate_finding(t, ids[j], ids[i]) && forall|h: int|
                0 <= h < i ==> !clash(t, #[trigger] ids[h], ids[j]),
    decreases ids.len(),
{
    let init = ids.drop_last();
    let last = ids.last();
    let n = ids.len() - 1;
    assert(ids[n] == last);
    lemma_first(init, clashes_with(t, last));
    if k < duplicates(t, init).len() {
        findings_name_the_first_clash(t, init, k);
        let (i, j) = choose|i: int, j: int|
            0 <= i < j < init.len() && clash(t, init[i], init[j]) && duplicates(t, init)[k]
                == #[trigger] duplicate_finding(t, init[j], init[i]) && forall|h: int|
                0 <= h < i ==> !clash(t, #[trigger] init[h], init[j]);
        assert(ids[i] == init[i] && ids[j] == init[j]);
        assert forall|h: int| 0 <= h < i implies !clash(t, #[trigger] ids[h], ids[j]) by {
            assert(init[h] == ids[h]);
        }
        assert(duplicates(t, ids)[k] == duplicate_finding(t, ids[j], ids[i]));
    } else {
        let f = first(init, clashes_with(t, last))->0;
        let i = choose|i: int|
            0 <= i < init.len() && #[trigger] init[i] == f && clashes_with(t, last)(f)
                && forall|j: int| 0 <= j < i ==> !clashes_with(t, last)(#[trigger] init[j]);
        assert(ids[i] == f);
        assert forall|h: int| 0 <= h < i implies !clash(t, #[trigger] ids[h], ids[n]) by {
            assert(!clashes_with(t, last)(init[h]));
        }
        assert(duplicates(t, ids)[k] == duplicate_finding(t, ids[n], ids[i]));
    }
}

} // verus!
