//! Which attributes give an id, which of them are compared and what is reported, said by the
//! parents, kinds, positions and texts of the elements alone.
use vstd::prelude::*;
use crate::guard_laws::{has_no_nodes, is_if_body};
use crate::html_duplicate_id::{
    apart, apart_means_below_different_bodies, body_around, branch_of, clashes_with,
    duplicate_finding, duplicates, id_text, is_around, separates, shown_ids, shown_ids_are_complete,
    static_id,
};
use crate::ignore::{directive_applies, follows_directive, is_shown, left_out, names_rule};
use crate::kind::SyntaxKind;
use crate::navigation::{
    child_of_kind_is_the_first, is_child_node, is_child_token, is_first_node, is_first_token,
    lacks_node, lemma_first_is_least, token_of_kind_is_the_first,
};
use crate::nodes::{first, lemma_child_nodes, lemma_child_tokens, lemma_first};
use crate::rule::Severity;
use crate::tree::Tree;
use crate::twig_deprecated_feature_guard::is_body_of;

verus! {

/// Whether the node at `n` is an `id` attribute whose value, inside its quotes, is at `i`, has no
/// nodes in it and is not empty.
pub open spec fn gives_id(t: Tree, n: int, i: int) -> bool {
    &&& t.is_node(n) && t.kind(n) == SyntaxKind::HTML_ATTRIBUTE
    &&& exists|w: int| #[trigger]
        is_first_token(t, n, SyntaxKind::TK_WORD, w) && t.token_text(w) == "id"@
    &&& exists|s: int| #[trigger]
        is_first_node(t, n, SyntaxKind::HTML_STRING, s) && is_first_node(
            t,
            s,
            SyntaxKind::HTML_STRING_INNER,
            i,
        )
    &&& has_no_nodes(t, i)
    &&& t.text(i).len() > 0
}

/// An attribute gives an id exactly if it is an `id` attribute with a plain value, and the id is
/// the text of that value.
pub proof fn id_is_the_plain_value(t: Tree, n: int, i: int)
    requires
        t.valid(),
        0 <= n < t.len(),
    ensures
        static_id(t, n) == Some(i) <==> gives_id(t, n, i),
        gives_id(t, n, i) ==> id_text(t, n) == t.text(i),
        static_id(t, n) is None <==> forall|j: int| !#[trigger] gives_id(t, n, j),
{
    lemma_id_is(t, n, i);
    if static_id(t, n) is None {
        assert forall|j: int| !#[trigger] gives_id(t, n, j) by {
            lemma_id_is(t, n, j);
        }
    }
    if static_id(t, n) is Some {
        lemma_id_is(t, n, static_id(t, n)->0);
        assert(gives_id(t, n, static_id(t, n)->0));
    }
}

proof fn lemma_id_is(t: Tree, n: int, i: int)
    requires
        t.valid(),
        0 <= n < t.len(),
    ensures
        static_id(t, n) == Some(i) <==> gives_id(t, n, i),
{
    if static_id(t, n) == Some(i) {
        let w = t.token_of_kind(n, SyntaxKind::TK_WORD)->0;
        token_of_kind_is_the_first(t, n, SyntaxKind::TK_WORD, w);
        let s = t.child_of_kind(n, SyntaxKind::HTML_STRING)->0;
        child_of_kind_is_the_first(t, n, SyntaxKind::HTML_STRING, s);
        child_of_kind_is_the_first(t, s, SyntaxKind::HTML_STRING_INNER, i);
        lemma_no_nodes(t, i);
        assert(is_first_token(t, n, SyntaxKind::TK_WORD, w));
        assert(is_first_node(t, n, SyntaxKind::HTML_STRING, s));
    }
    if gives_id(t, n, i) {
        let w = choose|w: int| #[trigger]
            is_first_token(t, n, SyntaxKind::TK_WORD, w) && t.token_text(w) == "id"@;
        let s = choose|s: int| #[trigger]
            is_first_node(t, n, SyntaxKind::HTML_STRING, s) && is_first_node(
                t,
                s,
                SyntaxKind::HTML_STRING_INNER,
                i,
            );
        token_of_kind_is_the_first(t, n, SyntaxKind::TK_WORD, w);
        child_of_kind_is_the_first(t, n, SyntaxKind::HTML_STRING, s);
        child_of_kind_is_the_first(t, s, SyntaxKind::HTML_STRING_INNER, i);
        lemma_no_nodes(t, i);
    }
}

proof fn lemma_no_nodes(t: Tree, n: int)
    requires
        t.valid(),
        t.is_node(n),
    ensures
        t.child_nodes(n).len() == 0 <==> has_no_nodes(t, n),
{
    let kids = t.child_nodes(n);
    lemma_child_nodes(t, n);
    if kids.len() > 0 {
        assert(kids.contains(kids[0]));
        assert(is_child_node(t, n, kids[0]));
    } else {
        assert forall|d: int| !#[trigger] is_child_node(t, n, d) by {
            assert(!kids.contains(d));
        }
    }
}

/// Whether the node at `d` is an ignore directive that names no rules, or names `rule`.
pub open spec fn ignores(t: Tree, d: int, rule: Seq<char>) -> bool {
    &&& t.kind(d) == SyntaxKind::LUDTWIG_DIRECTIVE_IGNORE
    &&& lacks_node(t, d, SyntaxKind::LUDTWIG_DIRECTIVE_RULE_LIST) || exists|l: int, w: int|
        #[trigger] is_first_node(t, d, SyntaxKind::LUDTWIG_DIRECTIVE_RULE_LIST, l)
            && #[trigger] is_child_token(t, l, w) && t.kind(w) == SyntaxKind::TK_WORD
            && t.token_text(w) == rule
}

/// Whether the node at `d` is the node right before its sibling at `n`.
pub open spec fn is_right_before(t: Tree, d: int, n: int) -> bool {
    &&& t.parent(n) is Some
    &&& is_child_node(t, t.parent(n)->0, d)
    &&& d < n
    &&& forall|x: int| #[trigger] is_child_node(t, t.parent(n)->0, x) ==> x <= d || n <= x
}

proof fn lemma_directive(t: Tree, d: int, rule: Seq<char>)
    requires
        t.valid(),
        t.is_node(d),
    ensures
        directive_applies(t, d, rule) <==> ignores(t, d, rule),
{
    let k = SyntaxKind::LUDTWIG_DIRECTIVE_RULE_LIST;
    child_of_kind_is_the_first(t, d, k, 0);
    if let Some(list) = t.child_of_kind(d, k) {
        child_of_kind_is_the_first(t, d, k, list);
        let tokens = t.child_tokens(list);
        lemma_child_tokens(t, list);
        if directive_applies(t, d, rule) {
            let i = choose|i: int|
                0 <= i < tokens.len() && t.kind(#[trigger] tokens[i]) == SyntaxKind::TK_WORD
                    && t.token_text(tokens[i]) == rule;
            assert(is_child_token(t, list, tokens[i]));
            assert(is_first_node(t, d, k, list));
        }
        if ignores(t, d, rule) {
            let (l, w) = choose|l: int, w: int| #[trigger]
                is_first_node(t, d, k, l) && #[trigger] is_child_token(t, l, w) && t.kind(w)
                    == SyntaxKind::TK_WORD && t.token_text(w) == rule;
            child_of_kind_is_the_first(t, d, k, l);
            assert(tokens.contains(w));
            let i = choose|i: int| 0 <= i < tokens.len() && tokens[i] == w;
            assert(names_rule(t, list, rule)) by {
                assert(t.kind(tokens[i]) == SyntaxKind::TK_WORD);
            }
        }
    }
}

/// An element is ignored exactly if the sibling node right before it is an ignore directive that
/// names no rules, or names the rule.
pub proof fn directive_ignores_the_next_node(t: Tree, n: int, rule: Seq<char>)
    requires
        t.valid(),
        t.is_node(n),
    ensures
        follows_directive(t, n, rule) <==> exists|d: int| #[trigger]
            is_right_before(t, d, n) && ignores(t, d, rule),
{
    if n > 0 {
        let p = t.parent(n)->0;
        assert(t.entries[n].parent is Some && t.is_node(p));
        let kids = t.child_nodes(p);
        lemma_child_nodes(t, p);
        if follows_directive(t, n, rule) {
            let i = choose|i: int|
                0 < i < kids.len() && #[trigger] kids[i] == n && directive_applies(
                    t,
                    kids[i - 1],
                    rule,
                );
            let d = kids[i - 1];
            assert(kids.contains(d));
            lemma_directive(t, d, rule);
            assert forall|x: int| #[trigger] is_child_node(t, p, x) implies x <= d || n <= x by {
                assert(kids.contains(x));
                let j = choose|j: int| 0 <= j < kids.len() && kids[j] == x;
                if j < i - 1 {
                    assert(kids[j] < kids[i - 1]);
                } else if j > i {
                    assert(kids[i] < kids[j]);
                }
            }
            assert(d < n);
            assert(is_right_before(t, d, n));
        }
        if exists|d: int| #[trigger] is_right_before(t, d, n) && ignores(t, d, rule) {
            let d = choose|d: int| #[trigger] is_right_before(t, d, n) && ignores(t, d, rule);
            lemma_directive(t, d, rule);
            assert(kids.contains(d) && kids.contains(n));
            let j = choose|j: int| 0 <= j < kids.len() && kids[j] == d;
            let i = choose|i: int| 0 <= i < kids.len() && kids[i] == n;
            if i <= j {
                if i < j {
                    assert(kids[i] < kids[j]);
                }
            } else if j + 1 < i {
                let x = kids[j + 1];
                assert(kids.contains(x));
                assert(is_child_node(t, p, x));
                assert(kids[j] < kids[j + 1] && kids[j + 1] < kids[i]);
            }
            assert(kids[i] == n && i - 1 == j);
        }
    }
}

/// Whether no node around the one at `n`, up to the node at `root`, is an error or ignored.
pub open spec fn takes_part(t: Tree, root: int, n: int) -> bool {
    &&& t.encloses(root, n)
    &&& forall|a: int| #[trigger]
        t.encloses(a, n) && t.encloses(root, a) ==> t.kind(a) != SyntaxKind::ERROR
    &&& forall|a: int, d: int|
        #![trigger t.encloses(a, n), is_right_before(t, d, a)]
        t.encloses(a, n) && t.encloses(root, a) && a != root && is_right_before(t, d, a)
            ==> !ignores(t, d, "html-duplicate-id"@)
}

/// The attributes that are compared are exactly those below the root that give an id and that are
/// not below an error or an ignored element, in the order of the text.
pub proof fn all_ids_are_compared(t: Tree, root: int, n: int)
    requires
        t.valid(),
        t.is_node(root),
    ensures
        shown_ids(t, root, root, t.end(root)).contains(n) <==> takes_part(t, root, n) && exists|
            i: int,
        | #[trigger] gives_id(t, n, i),
        forall|i: int, j: int|
            0 <= i < j < shown_ids(t, root, root, t.end(root)).len() ==> shown_ids(
                t,
                root,
                root,
                t.end(root),
            )[i] < shown_ids(t, root, root, t.end(root))[j],
{
    let rule = "html-duplicate-id"@;
    assert(root < t.entries[root].end <= t.len());
    shown_ids_are_complete(t, root, root, t.end(root));
    if t.encloses(root, n) {
        id_is_the_plain_value(t, n, 0);
        assert(is_shown(t, root, n, rule) == takes_part(t, root, n)) by {
            if is_shown(t, root, n, rule) {
                assert forall|a: int| #[trigger]
                    t.encloses(a, n) && t.encloses(root, a) implies t.kind(a)
                    != SyntaxKind::ERROR by {
                    assert(!left_out(t, root, a, rule));
                }
                assert forall|a: int, d: int|
                    #![trigger t.encloses(a, n), is_right_before(t, d, a)]
                    t.encloses(a, n) && t.encloses(root, a) && a != root && is_right_before(
                        t,
                        d,
                        a,
                    ) implies !ignores(t, d, rule) by {
                    assert(!left_out(t, root, a, rule));
                    directive_ignores_the_next_node(t, a, rule);
                }
            }
            if takes_part(t, root, n) {
                assert forall|a: int| #[trigger]
                    t.encloses(a, n) && root <= a implies !left_out(t, root, a, rule) by {
                    assert(t.encloses(root, a));
                    directive_ignores_the_next_node(t, a, rule);
                    if a != root && follows_directive(t, a, rule) {
                        let d = choose|d: int| #[trigger]
                            is_right_before(t, d, a) && ignores(t, d, rule);
                        assert(is_right_before(t, d, a));
                    }
                }
            }
        }
    }
}

/// Whether the nodes at `a` and `b` are below different bodies of one `if`.
pub open spec fn in_different_bodies(t: Tree, a: int, b: int) -> bool {
    exists|c: int, x: int, y: int|
        #![trigger is_if_body(t, c, x), is_if_body(t, c, y)]
        is_if_body(t, c, x) && is_if_body(t, c, y) && x != y && t.encloses(x, a) && t.encloses(y, b)
}

/// Two attributes that give an id are apart exactly if they are below different bodies of one `if`.
pub proof fn ids_are_apart_in_different_bodies(t: Tree, a: int, i: int, b: int, j: int)
    requires
        t.valid(),
        gives_id(t, a, i),
        gives_id(t, b, j),
    ensures
        apart(t, a, b) <==> in_different_bodies(t, a, b),
{
    id_is_the_plain_value(t, a, i);
    id_is_the_plain_value(t, b, j);
    apart_means_below_different_bodies(t, a, b);
    if apart(t, a, b) {
        let (c, x, y) = choose|c: int, x: int, y: int|
            #![trigger is_body_of(t, c, x), is_body_of(t, c, y)]
            t.kind(c) == SyntaxKind::TWIG_IF && is_body_of(t, c, x) && is_body_of(t, c, y) && x != y
                && t.encloses(x, a) && t.encloses(y, b);
        assert(is_if_body(t, c, x) && is_if_body(t, c, y));
    }
    if in_different_bodies(t, a, b) {
        let (c, x, y) = choose|c: int, x: int, y: int|
            #![trigger is_if_body(t, c, x), is_if_body(t, c, y)]
            is_if_body(t, c, x) && is_if_body(t, c, y) && x != y && t.encloses(x, a) && t.encloses(
                y,
                b,
            );
        assert(is_body_of(t, c, x) && is_body_of(t, c, y));
    }
}

/// Whether `u` is the first body of the `if` at `c` whose range contains that of the node at `n`.
pub open spec fn is_first_cover(t: Tree, c: int, n: int, u: int) -> bool {
    &&& covers_in(t, c, n, u)
    &&& forall|d: int| #[trigger] covers_in(t, c, n, d) ==> u <= d
}

/// Whether `u` is a body of the node at `c` whose range contains that of the node at `n`.
pub open spec fn covers_in(t: Tree, c: int, n: int, u: int) -> bool {
    &&& is_child_node(t, c, u)
    &&& t.kind(u) == SyntaxKind::BODY
    &&& t.range(u).start <= t.range(n).start
    &&& t.range(n).end <= t.range(u).end
}

proof fn lemma_first_cover(t: Tree, c: int, n: int, u: int)
    requires
        t.valid(),
        t.is_node(c),
    ensures
        branch_of(t, c, n) == Some(u) <==> is_first_cover(t, c, n, u),
{
    let kids = t.child_nodes(c);
    let p = body_around(t, n);
    lemma_child_nodes(t, c);
    lemma_first_is_least(kids, p, u);
    assert forall|d: int| #[trigger] covers_in(t, c, n, d) <==> kids.contains(d) && p(d) by {
        assert(kids.contains(d) <==> is_child_node(t, c, d));
    }
    if is_first_cover(t, c, n, u) {
        assert forall|d: int| #[trigger] kids.contains(d) && p(d) implies u <= d by {
            assert(covers_in(t, c, n, d));
        }
    }
    if branch_of(t, c, n) == Some(u) {
        assert(covers_in(t, c, n, u));
        assert forall|d: int| #[trigger] covers_in(t, c, n, d) implies u <= d by {
            assert(kids.contains(d) && p(d));
        }
    }
}

/// Two nodes are apart exactly if some `if` above the first is also taken for one above the second,
/// and the first of its bodies that contain their ranges are not taken for the same.
pub proof fn nodes_are_apart_by_ranges(t: Tree, a: int, b: int)
    requires
        t.valid(),
        t.is_node(a),
        t.is_node(b),
    ensures
        apart(t, a, b) <==> exists|c: int, y: int, u: int, v: int|
            #![trigger t.encloses(c, a), t.encloses(y, b), is_first_cover(t, c, a, u),
                is_first_cover(t, c, b, v)]
            t.kind(c) == SyntaxKind::TWIG_IF && t.encloses(c, a) && t.encloses(y, b) && t.same(y, c)
                && is_first_cover(t, c, a, u) && is_first_cover(t, c, b, v) && !t.same(u, v),
{
    if apart(t, a, b) {
        let c = choose|c: int| #[trigger] separates(t, c, a, b);
        let y = choose|y: int| #[trigger] t.encloses(y, b) && t.same(y, c);
        let u = branch_of(t, c, a)->0;
        let v = branch_of(t, c, b)->0;
        lemma_first_cover(t, c, a, u);
        lemma_first_cover(t, c, b, v);
        assert(t.encloses(c, a) && t.encloses(y, b));
        assert(is_first_cover(t, c, a, u) && is_first_cover(t, c, b, v));
    }
    if exists|c: int, y: int, u: int, v: int|
        #![trigger t.encloses(c, a), t.encloses(y, b), is_first_cover(t, c, a, u),
            is_first_cover(t, c, b, v)]
        t.kind(c) == SyntaxKind::TWIG_IF && t.encloses(c, a) && t.encloses(y, b) && t.same(y, c)
            && is_first_cover(t, c, a, u) && is_first_cover(t, c, b, v) && !t.same(u, v) {
        let (c, y, u, v) = choose|c: int, y: int, u: int, v: int|
            #![trigger t.encloses(c, a), t.encloses(y, b), is_first_cover(t, c, a, u),
                is_first_cover(t, c, b, v)]
            t.kind(c) == SyntaxKind::TWIG_IF && t.encloses(c, a) && t.encloses(y, b) && t.same(y, c)
                && is_first_cover(t, c, a, u) && is_first_cover(t, c, b, v) && !t.same(u, v);
        lemma_first_cover(t, c, a, u);
        lemma_first_cover(t, c, b, v);
        assert(is_around(t, c, b));
        assert(separates(t, c, a, b));
    }
}

// ---- Findings ----

/// Whether the attributes at `f` and `n` give the same id and are not below different bodies of one
/// `if`.
pub open spec fn same_id_together(t: Tree, f: int, n: int) -> bool {
    &&& exists|i: int, j: int| #[trigger]
        gives_id(t, f, i) && #[trigger] gives_id(t, n, j) && t.text(i) == t.text(j)
    &&& !in_different_bodies(t, f, n)
}

proof fn lemma_clash(t: Tree, f: int, n: int)
    requires
        t.valid(),
        0 <= f < t.len(),
        0 <= n < t.len(),
        static_id(t, f) is Some,
        static_id(t, n) is Some,
    ensures
        clashes_with(t, n)(f) <==> same_id_together(t, f, n),
{
    let i = static_id(t, f)->0;
    let j = static_id(t, n)->0;
    id_is_the_plain_value(t, f, i);
    id_is_the_plain_value(t, n, j);
    ids_are_apart_in_different_bodies(t, f, i, n, j);
    assert(gives_id(t, f, i) && gives_id(t, n, j));
    if same_id_together(t, f, n) {
        let (x, y) = choose|x: int, y: int| #[trigger]
            gives_id(t, f, x) && #[trigger] gives_id(t, n, y) && t.text(x) == t.text(y);
        id_is_the_plain_value(t, f, x);
        id_is_the_plain_value(t, n, y);
    }
}

/// With one more attribute at the end of a list, there is one finding more exactly if an attribute
/// of the list gives the same id and can be rendered together with it. The findings before stay.
pub proof fn one_more_attribute_adds_its_finding(t: Tree, ids: Seq<int>, n: int)
    requires
        t.valid(),
        forall|k: int|
            0 <= k < ids.len() ==> 0 <= #[trigger] ids[k] < t.len() && static_id(t, ids[k]) is Some,
        forall|i: int, j: int| 0 <= i < j < ids.len() ==> ids[i] < ids[j],
        0 <= n < t.len(),
        static_id(t, n) is Some,
    ensures
        duplicates(t, Seq::empty()).len() == 0,
        (forall|f: int| #[trigger] ids.contains(f) ==> !same_id_together(t, f, n)) ==> duplicates(
            t,
            ids.push(n),
        ) == duplicates(t, ids),
        forall|f: int|
            #![trigger same_id_together(t, f, n)]
            ids.contains(f) && same_id_together(t, f, n) && (forall|g: int| #[trigger]
                ids.contains(g) && same_id_together(t, g, n) ==> f <= g) ==> duplicates(
                t,
                ids.push(n),
            ) == duplicates(t, ids).push(duplicate_finding(t, n, f)),
{
    let all = ids.push(n);
    let p = clashes_with(t, n);
    assert(all.drop_last() == ids && all.last() == n);
    assert forall|f: int| #[trigger] ids.contains(f) implies p(f) == same_id_together(t, f, n) by {
        let k = choose|k: int| 0 <= k < ids.len() && ids[k] == f;
        assert(ids[k] == f);
        lemma_clash(t, f, n);
    }
    lemma_first_is_least(ids, p, 0);
    assert forall|f: int|
        #![trigger same_id_together(t, f, n)]
        ids.contains(f) && same_id_together(t, f, n) && (forall|g: int| #[trigger]
            ids.contains(g) && same_id_together(t, g, n) ==> f <= g) implies duplicates(
        t,
        ids.push(n),
    ) == duplicates(t, ids).push(duplicate_finding(t, n, f)) by {
        lemma_first_is_least(ids, p, f);
    }
}

/// Every attribute with an earlier one that gives the same id and can be rendered together with it
/// has a finding.
proof fn lemma_every_clash_is_found(t: Tree, ids: Seq<int>, i: int, j: int)
    requires
        0 <= i < j < ids.len(),
        clashes_with(t, ids[j])(ids[i]),
    ensures
        exists|k: int, f: int|
            #![trigger duplicates(t, ids)[k], ids.contains(f)]
            0 <= k < duplicates(t, ids).len() && ids.contains(f) && clashes_with(t, ids[j])(f)
                && duplicates(t, ids)[k] == duplicate_finding(t, ids[j], f),
    decreases ids.len(),
{
    let init = ids.drop_last();
    let last = ids.last();
    if j == ids.len() - 1 {
        lemma_first(init, clashes_with(t, last));
        assert(init[i] == ids[i]);
        let f = first(init, clashes_with(t, last))->0;
        let h = choose|h: int|
            0 <= h < init.len() && #[trigger] init[h] == f && clashes_with(t, last)(f) && forall|
                x: int,
            |
                0 <= x < h ==> !clashes_with(t, last)(#[trigger] init[x]);
        assert(ids[h] == f);
        let k = duplicates(t, init).len() as int;
        assert(duplicates(t, ids)[k] == duplicate_finding(t, ids[j], f));
        assert(ids.contains(f));
    } else {
        assert(init[i] == ids[i] && init[j] == ids[j]);
        lemma_every_clash_is_found(t, init, i, j);
        let (k, f) = choose|k: int, f: int|
            #![trigger duplicates(t, init)[k], init.contains(f)]
            0 <= k < duplicates(t, init).len() && init.contains(f) && clashes_with(t, init[j])(f)
                && duplicates(t, init)[k] == duplicate_finding(t, init[j], f);
        assert(duplicates(t, ids)[k] == duplicates(t, init)[k]);
        let h = choose|h: int| 0 <= h < init.len() && init[h] == f;
        assert(ids[h] == f);
        assert(ids.contains(f));
    }
}

/// Of two attributes anywhere below the root that take part, give the same id and are not below
/// different bodies of one `if`, the later one has a finding: at its value, with a note at the
/// value of an attribute that takes part and gives the same id.
pub proof fn duplicate_ids_are_reported(t: Tree, root: int, f: int, i: int, n: int, j: int)
    requires
        t.valid(),
        t.is_node(root),
        f < n,
        takes_part(t, root, f),
        takes_part(t, root, n),
        gives_id(t, f, i),
        gives_id(t, n, j),
        t.text(i) == t.text(j),
        !in_different_bodies(t, f, n),
    ensures
        ({
            let found = duplicates(t, shown_ids(t, root, root, t.end(root)));
            exists|k: int, g: int, h: int|
                #![trigger found[k], gives_id(t, g, h)]
                0 <= k < found.len() && takes_part(t, root, g) && gives_id(t, g, h) && t.text(h)
                    == t.text(j) && !in_different_bodies(t, g, n) && found[k].severity
                    == Severity::Warning && found[k].primary is Some && (found[k].primary->0).range
                    == t.range(j) && (found[k].primary->0).message == "duplicate id '"@ + t.text(j)
                    + "'"@ && found[k].secondary.len() == 1 && found[k].secondary[0].range
                    == t.range(h)
        }),
{
    let ids = shown_ids(t, root, root, t.end(root));
    let found = duplicates(t, ids);
    all_ids_are_compared(t, root, f);
    all_ids_are_compared(t, root, n);
    id_is_the_plain_value(t, f, i);
    id_is_the_plain_value(t, n, j);
    assert(ids.contains(f) && ids.contains(n));
    let x = choose|x: int| 0 <= x < ids.len() && ids[x] == f;
    let y = choose|y: int| 0 <= y < ids.len() && ids[y] == n;
    if y < x {
        assert(ids[y] < ids[x]);
    }
    lemma_clash(t, f, n);
    assert(same_id_together(t, f, n));
    lemma_every_clash_is_found(t, ids, x, y);
    let (k, g) = choose|k: int, g: int|
        #![trigger duplicates(t, ids)[k], ids.contains(g)]
        0 <= k < duplicates(t, ids).len() && ids.contains(g) && clashes_with(t, ids[y])(g)
            && duplicates(t, ids)[k] == duplicate_finding(t, ids[y], g);
    all_ids_are_compared(t, root, g);
    let h = choose|h: int| #[trigger] gives_id(t, g, h);
    id_is_the_plain_value(t, g, h);
    lemma_clash(t, g, n);
    assert(found[k] == duplicate_finding(t, n, g));
    assert(gives_id(t, g, h));
}

/// The finding for an attribute is at its id, and points at the id of the other attribute.
pub proof fn finding_points_at_both_ids(t: Tree, n: int, j: int, f: int, i: int)
    requires
        t.valid(),
        0 <= n < t.len(),
        0 <= f < t.len(),
        gives_id(t, n, j),
        gives_id(t, f, i),
    ensures
        ({
            let finding = duplicate_finding(t, n, f);
            &&& finding.rule_name == "html-duplicate-id"@
            &&& finding.severity == Severity::Warning
            &&& finding.message == "duplicate HTML element id attribute value"@
            &&& finding.primary matches Some(note) && note.range == t.range(j) && note.message
                == "duplicate id '"@ + t.text(j) + "'"@
            &&& finding.secondary.len() == 1
            &&& finding.secondary[0].range == t.range(i)
            &&& finding.secondary[0].message == "first defined here"@
        }),
{
    id_is_the_plain_value(t, n, j);
    id_is_the_plain_value(t, f, i);
}

} // verus!
