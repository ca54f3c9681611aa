//! The names of tags, the Twig code around a node and the fragments of a template, said by the
//! parents, kinds, positions and texts of the elements alone.
use vstd::prelude::*;
use crate::branches::lemma_counted_body;
use crate::html_fragments::{
    DYNAMIC_HTML_TAG_PREFIX, FragmentView, branch_conditions, child_towards, condition_text,
    conditions_from, context_of, errors_below, fits, fragment_at, fragments_between, header_limit,
    is_scope_kind, mismatch_at, mismatch_error, mismatches_between, name_of_tag, name_test,
    stated_conditions,
};
use crate::kind::SyntaxKind;
use crate::navigation::{
    child_of_kind_is_the_first, is_child_node, is_child_token, is_first_node, key_is_made_of_words,
    lacks_node, lemma_first_is_least, opens_branch,
};
use crate::nodes::{
    keys_tell_texts_apart, lemma_child_nodes, lemma_child_tokens, lemma_filter_sorted,
};
use crate::text::{all_lack, joined, nothing_and_empty};
use crate::tree::{TextRange, Tree};

verus! {

// ---- Names ----

/// Whether the element at `w` is a child token of the node at `n` that can be its name.
pub open spec fn is_name_token(t: Tree, n: int, w: int) -> bool {
    is_child_token(t, n, w) && (t.kind(w) == SyntaxKind::TK_WORD || t.kind(w)
        == SyntaxKind::TK_TWIG_COMPONENT_NAME)
}

/// Whether no child token of the node at `n` can be its name.
pub open spec fn has_no_name_token(t: Tree, n: int) -> bool {
    forall|d: int| !#[trigger] is_name_token(t, n, d)
}

proof fn lemma_name_token(t: Tree, n: int, w: int)
    requires
        t.valid(),
        t.is_node(n),
    ensures
        crate::nodes::first(t.child_tokens(n), name_test(t)) == Some(w) <==> is_name_token(t, n, w)
            && forall|d: int| #[trigger] is_name_token(t, n, d) ==> w <= d,
        crate::nodes::first(t.child_tokens(n), name_test(t)) is None <==> has_no_name_token(t, n),
{
    let s = t.child_tokens(n);
    let p = name_test(t);
    lemma_child_tokens(t, n);
    lemma_first_is_least(s, p, w);
    assert forall|d: int| #[trigger] is_name_token(t, n, d) <==> s.contains(d) && p(d) by {
        assert(s.contains(d) <==> is_child_token(t, n, d));
    }
    if is_name_token(t, n, w) && forall|d: int| #[trigger] is_name_token(t, n, d) ==> w <= d {
        assert forall|d: int| #[trigger] s.contains(d) && p(d) implies w <= d by {
            assert(is_name_token(t, n, d));
        }
    }
    if has_no_name_token(t, n) {
        assert forall|d: int| #[trigger] s.contains(d) implies !p(d) by {
            assert(!is_name_token(t, n, d));
        }
    }
}

/// The first word or component name in a tag is its name and its key.
pub proof fn name_is_the_first_word(t: Tree, n: int, w: int)
    requires
        t.valid(),
        t.is_node(n),
        is_name_token(t, n, w),
        forall|d: int| #[trigger] is_name_token(t, n, d) ==> w <= d,
    ensures
        name_of_tag(t, n) == Some((t.token_text(w), t.token_text(w), t.range(w))),
{
    lemma_name_token(t, n, w);
}

/// The name of a tag without such a word is its first Twig variable, and the key is made of the
/// words of the expression in it.
pub proof fn name_can_be_a_variable(t: Tree, n: int, v: int, e: int)
    requires
        t.valid(),
        t.is_node(n),
        has_no_name_token(t, n),
        is_first_node(t, n, SyntaxKind::TWIG_VAR, v),
        is_first_node(t, v, SyntaxKind::TWIG_EXPRESSION, e),
    ensures
        name_of_tag(t, n) == Some(
            (
                t.text(v),
                DYNAMIC_HTML_TAG_PREFIX@ + joined(t.words_between(e, t.end(e)), seq!['\0'])
                    + seq!['\0'],
                t.range(v),
            ),
        ),
{
    lemma_name_token(t, n, 0);
    child_of_kind_is_the_first(t, n, SyntaxKind::TWIG_VAR, v);
    child_of_kind_is_the_first(t, v, SyntaxKind::TWIG_EXPRESSION, e);
    key_is_made_of_words(t, e);
    reveal_strlit("\0");
    assert("\0"@ == seq!['\0']);
}

/// A tag has no name only if it has neither such a word nor a variable with an expression.
pub proof fn tag_without_name_has_nothing(t: Tree, n: int, v: int)
    requires
        t.valid(),
        t.is_node(n),
        has_no_name_token(t, n),
        lacks_node(t, n, SyntaxKind::TWIG_VAR) || (is_first_node(t, n, SyntaxKind::TWIG_VAR, v)
            && lacks_node(t, v, SyntaxKind::TWIG_EXPRESSION)),
    ensures
        name_of_tag(t, n) is None,
{
    lemma_name_token(t, n, 0);
    child_of_kind_is_the_first(t, n, SyntaxKind::TWIG_VAR, v);
    if is_first_node(t, n, SyntaxKind::TWIG_VAR, v) {
        child_of_kind_is_the_first(t, v, SyntaxKind::TWIG_EXPRESSION, v);
    }
}

// ---- Conditions ----

/// The condition of a header is made of the words of its first expression. Without an expression it
/// is empty.
pub proof fn condition_is_the_expression(t: Tree, h: int, e: int)
    requires
        t.valid(),
        t.is_node(h),
    ensures
        is_first_node(t, h, SyntaxKind::TWIG_EXPRESSION, e) ==> condition_text(t, h) == joined(
            t.words_between(e, t.end(e)),
            seq!['\0'],
        ),
        lacks_node(t, h, SyntaxKind::TWIG_EXPRESSION) ==> condition_text(t, h).len() == 0,
{
    child_of_kind_is_the_first(t, h, SyntaxKind::TWIG_EXPRESSION, e);
    if is_first_node(t, h, SyntaxKind::TWIG_EXPRESSION, e) {
        key_is_made_of_words(t, e);
    }
}

/// The conditions of two headers are the same exactly if the tokens of their expressions have the
/// same texts up to trivia, as long as no token contains NUL. There is one exception: no token at
/// all is not told from a single token without text.
pub proof fn conditions_are_told_apart(t: Tree, h: int, e: int, u: Tree, g: int, f: int)
    requires
        t.valid(),
        t.is_node(h),
        is_first_node(t, h, SyntaxKind::TWIG_EXPRESSION, e),
        u.valid(),
        u.is_node(g),
        is_first_node(u, g, SyntaxKind::TWIG_EXPRESSION, f),
        all_lack(t.words_between(e, t.end(e)), '\0'),
        all_lack(u.words_between(f, u.end(f)), '\0'),
        !nothing_and_empty(t.words_between(e, t.end(e)), u.words_between(f, u.end(f))),
        !nothing_and_empty(u.words_between(f, u.end(f)), t.words_between(e, t.end(e))),
    ensures
        condition_text(t, h) == condition_text(u, g) <==> t.words_between(e, t.end(e))
            == u.words_between(f, u.end(f)),
{
    child_of_kind_is_the_first(t, h, SyntaxKind::TWIG_EXPRESSION, e);
    child_of_kind_is_the_first(u, g, SyntaxKind::TWIG_EXPRESSION, f);
    keys_tell_texts_apart(t, e, u, f);
}

/// Whether the element at `h` is a header of the `if` at `a` that has a condition.
pub open spec fn states_condition(t: Tree, a: int, h: int) -> bool {
    is_child_node(t, a, h) && (t.kind(h) == SyntaxKind::TWIG_IF_BLOCK || t.kind(h)
        == SyntaxKind::TWIG_ELSE_IF_BLOCK)
}

/// Whether `hs` lists the headers with a condition of the `if` at `a` before `limit`, in order.
pub open spec fn lists_headers(t: Tree, a: int, limit: int, hs: Seq<int>) -> bool {
    &&& forall|i: int, j: int| 0 <= i < j < hs.len() ==> hs[i] < hs[j]
    &&& forall|h: int| #[trigger] hs.contains(h) <==> states_condition(t, a, h) && h < limit
}

/// Whether no header of the `if` at `a` stands between `h` and `limit`.
pub open spec fn is_last_header(t: Tree, a: int, limit: int, h: int) -> bool {
    forall|g: int| #[trigger] opens_branch(t, a, g) && g < limit ==> g <= h
}

/// Whether the conditions `cs` are those of the headers at `hs`, of which only the last header
/// before `limit` has one that holds.
pub open spec fn states(
    t: Tree,
    a: int,
    limit: int,
    hs: Seq<int>,
    cs: Seq<(Seq<char>, bool)>,
) -> bool {
    &&& cs.len() == hs.len()
    &&& forall|j: int|
        0 <= j < hs.len() ==> #[trigger] cs[j] == (
            condition_text(t, hs[j]),
            is_last_header(t, a, limit, hs[j]),
        )
}

proof fn lemma_sorted_lists_are_equal(a: Seq<int>, b: Seq<int>)
    requires
        forall|i: int, j: int| 0 <= i < j < a.len() ==> a[i] < a[j],
        forall|i: int, j: int| 0 <= i < j < b.len() ==> b[i] < b[j],
        forall|x: int| #[trigger] a.contains(x) <==> b.contains(x),
    ensures
        a == b,
    decreases a.len(),
{
    if a.len() == 0 {
        if b.len() > 0 {
            assert(b.contains(b[0]));
            assert(a.contains(b[0]));
        }
        assert(a == b);
    } else {
        assert(a.contains(a.last())) by {
            assert(a[a.len() - 1] == a.last());
        }
        assert(b.contains(a.last()));
        let j = choose|j: int| 0 <= j < b.len() && b[j] == a.last();
        assert(b.contains(b[b.len() - 1]));
        assert(a.contains(b[b.len() - 1]));
        let i = choose|i: int| 0 <= i < a.len() && a[i] == b[b.len() - 1];
        assert(a.last() == b.last());
        let c = a.drop_last();
        let d = b.drop_last();
        assert forall|x: int| #[trigger] c.contains(x) <==> d.contains(x) by {
            if c.contains(x) {
                let k = choose|k: int| 0 <= k < c.len() && c[k] == x;
                assert(a[k] == x && a[k] < a[a.len() - 1]);
                assert(a.contains(x));
                let m = choose|m: int| 0 <= m < b.len() && b[m] == x;
                assert(d[m] == x);
            }
            if d.contains(x) {
                let k = choose|k: int| 0 <= k < d.len() && d[k] == x;
                assert(b[k] == x && b[k] < b[b.len() - 1]);
                assert(b.contains(x));
                assert(a.contains(x));
                let m = choose|m: int| 0 <= m < a.len() && a[m] == x;
                assert(c[m] == x);
            }
        }
        lemma_sorted_lists_are_equal(c, d);
        assert(a == c.push(a.last()));
        assert(b == d.push(b.last()));
    }
}

proof fn lemma_stated(t: Tree, a: int, limit: int, hs: Seq<int>)
    requires
        t.valid(),
        t.is_node(a),
        lists_headers(t, a, limit, hs),
    ensures
        states(
            t,
            a,
            limit,
            hs,
            stated_conditions(
                t,
                t.children_before(a, limit, t.condition_header_test()),
                t.children_before(a, limit, t.header_test()),
            ),
        ),
{
    let kids = t.child_nodes(a);
    let ctest = t.condition_header_test();
    let test = t.header_test();
    let heads = t.children_before(a, limit, ctest);
    let headers = t.children_before(a, limit, test);
    lemma_child_nodes(t, a);
    lemma_filter_sorted(kids, |c: int| c < limit && ctest(c));
    lemma_filter_sorted(kids, |c: int| c < limit && test(c));
    assert forall|x: int| #[trigger] heads.contains(x) <==> hs.contains(x) by {
        assert(kids.contains(x) <==> is_child_node(t, a, x));
        assert(hs.contains(x) <==> states_condition(t, a, x) && x < limit);
    }
    lemma_sorted_lists_are_equal(heads, hs);
    assert forall|x: int| headers.contains(x) <==> #[trigger] opens_branch(t, a, x) && x
        < limit by {
        assert(kids.contains(x) <==> is_child_node(t, a, x));
    }
    assert forall|j: int| 0 <= j < hs.len() implies (headers.len() > 0 && hs[j] == headers.last())
        == is_last_header(t, a, limit, #[trigger] hs[j]) by {
        assert(hs.contains(hs[j]));
        assert(opens_branch(t, a, hs[j]) && hs[j] < limit);
        assert(headers.contains(hs[j]));
        let last = headers[headers.len() - 1];
        assert(headers.contains(last));
        assert(opens_branch(t, a, last) && last < limit);
        let k = choose|k: int| 0 <= k < headers.len() && headers[k] == hs[j];
        if k < headers.len() - 1 {
            assert(headers[k] < headers[headers.len() - 1]);
        } else {
            assert forall|g: int| #[trigger] opens_branch(t, a, g) && g < limit implies g
                <= hs[j] by {
                assert(headers.contains(g));
                let m = choose|m: int| 0 <= m < headers.len() && headers[m] == g;
                if m < headers.len() - 1 {
                    assert(headers[m] < headers[headers.len() - 1]);
                }
            }
        }
    }
}

proof fn lemma_nothing_towards(t: Tree, a: int, n: int)
    requires
        t.valid(),
        t.is_node(n),
        n <= a,
    ensures
        child_towards(t, a, n) is None,
    decreases n,
{
    if let Some(p) = t.parent(n) {
        if n > 0 {
            assert(t.entries[n].parent is Some && 0 <= p < n && t.is_node(p));
            lemma_nothing_towards(t, a, p);
        }
    }
}

proof fn lemma_conditions_above(t: Tree, a: int, p: int, n: int)
    requires
        t.valid(),
        t.is_node(n),
        t.is_node(a),
        n > 0,
        t.parent(n) == Some(p),
        a < p,
    ensures
        conditions_from(t, a, n) == conditions_from(t, a, p),
    decreases a,
{
    assert(t.entries[n].parent is Some && 0 <= p < n);
    assert(child_towards(t, a, n) == child_towards(t, a, p));
    if a > 0 {
        let q = t.parent(a)->0;
        assert(t.entries[a].parent is Some && 0 <= q < a && t.is_node(q));
        lemma_conditions_above(t, q, p, n);
    }
}

/// What the `if` at `n` itself says about the node at `n`: all its headers count.
proof fn lemma_own_conditions(t: Tree, n: int, own: Seq<int>)
    requires
        t.valid(),
        t.is_node(n),
        t.kind(n) == SyntaxKind::TWIG_IF,
        lists_headers(t, n, t.end(n), own),
    ensures
        states(t, n, t.end(n), own, branch_conditions(t, n, n)),
{
    lemma_nothing_towards(t, n, n);
    lemma_stated(t, n, t.end(n), own);
}

/// Whether `own` lists the headers with a condition that the node at `n` has as an `if`; other
/// nodes have none.
pub open spec fn lists_own_headers(t: Tree, n: int, own: Seq<int>) -> bool {
    if t.kind(n) == SyntaxKind::TWIG_IF {
        lists_headers(t, n, t.end(n), own)
    } else {
        own.len() == 0
    }
}

proof fn lemma_own_and_rest(t: Tree, n: int, own: Seq<int>) -> (rest: Seq<(Seq<char>, bool)>)
    requires
        t.valid(),
        t.is_node(n),
        lists_own_headers(t, n, own),
    ensures
        rest == (match t.parent(n) {
            Some(p) => conditions_from(t, p, n),
            None => Seq::empty(),
        }),
        context_of(t, n).conditions.skip(own.len() as int) == rest,
        context_of(t, n).conditions.len() == own.len() + rest.len(),
        t.kind(n) == SyntaxKind::TWIG_IF ==> states(
            t,
            n,
            t.end(n),
            own,
            context_of(t, n).conditions.take(own.len() as int),
        ),
{
    let here = if t.kind(n) == SyntaxKind::TWIG_IF {
        lemma_own_conditions(t, n, own);
        branch_conditions(t, n, n)
    } else {
        Seq::empty()
    };
    let all = context_of(t, n).conditions;
    let rest: Seq<(Seq<char>, bool)> = match t.parent(n) {
        Some(p) => conditions_from(t, p, n),
        None => Seq::empty(),
    };
    if n > 0 {
        assert(t.entries[n].parent is Some && 0 <= t.parent(n)->0 < n);
    }
    assert(here.len() == own.len());
    assert(all == here + rest);
    assert(all.take(own.len() as int) == here);
    assert(all.skip(own.len() as int) == rest);
    rest
}

/// The conditions of a node begin with those that it states itself, if it is an `if`. Of these only
/// the one of the very last header holds.
pub proof fn an_if_counts_its_own_headers(t: Tree, n: int, own: Seq<int>)
    requires
        t.valid(),
        t.is_node(n),
        t.kind(n) == SyntaxKind::TWIG_IF,
        lists_headers(t, n, t.end(n), own),
    ensures
        own.len() <= context_of(t, n).conditions.len(),
        states(t, n, t.end(n), own, context_of(t, n).conditions.take(own.len() as int)),
{
    let rest = lemma_own_and_rest(t, n, own);
}

/// Nothing but its own headers counts for the root.
pub proof fn root_is_under_no_conditions(t: Tree, own: Seq<int>)
    requires
        t.valid(),
        lists_own_headers(t, 0, own),
    ensures
        context_of(t, 0).conditions.len() == own.len(),
{
    let rest = lemma_own_and_rest(t, 0, own);
}

/// A node whose parent is not an `if` is under the conditions of its parent, besides those that it
/// states itself.
pub proof fn conditions_come_from_above(t: Tree, p: int, n: int, own: Seq<int>)
    requires
        t.valid(),
        t.is_node(n),
        t.parent(n) == Some(p),
        t.kind(p) != SyntaxKind::TWIG_IF,
        lists_own_headers(t, n, own),
    ensures
        context_of(t, n).conditions.skip(own.len() as int) == context_of(t, p).conditions,
{
    assert(n > 0);
    assert(t.entries[n].parent is Some && 0 <= p < n && t.is_node(p));
    let rest = lemma_own_and_rest(t, n, own);
    lemma_conditions_of_parent(t, p, n);
    assert(conditions_from(t, p, n) == context_of(t, p).conditions);
}

proof fn lemma_conditions_of_parent(t: Tree, p: int, n: int)
    requires
        t.valid(),
        t.is_node(n),
        n > 0,
        t.parent(n) == Some(p),
    ensures
        ({
            let above: Seq<(Seq<char>, bool)> = match t.parent(p) {
                Some(q) => conditions_from(t, q, p),
                None => Seq::empty(),
            };
            if t.kind(p) == SyntaxKind::TWIG_IF {
                &&& conditions_from(t, p, n) == branch_conditions(t, p, n) + above
                &&& conditions_from(t, p, p) == branch_conditions(t, p, p) + above
            } else {
                &&& conditions_from(t, p, n) == above
                &&& conditions_from(t, p, p) == above
            }
        }),
{
    assert(t.entries[n].parent is Some && 0 <= p < n && t.is_node(p));
    let none = Seq::<(Seq<char>, bool)>::empty();
    if p > 0 {
        let q = t.parent(p)->0;
        assert(t.entries[p].parent is Some && 0 <= q < p && t.is_node(q));
        lemma_conditions_above(t, q, p, n);
        assert(none + conditions_from(t, q, n) == conditions_from(t, q, n));
        assert(none + conditions_from(t, q, p) == conditions_from(t, q, p));
    } else {
        assert(branch_conditions(t, p, n) + none == branch_conditions(t, p, n));
        assert(branch_conditions(t, p, p) + none == branch_conditions(t, p, p));
    }
}

/// Whether the headers of the `if` at `p` before `limit` count for its child at `n`: those before
/// the first body that the child is taken for, and all of them if it is not a body.
pub open spec fn is_limit_for(t: Tree, p: int, n: int, limit: int) -> bool {
    if t.kind(n) == SyntaxKind::BODY {
        &&& is_child_node(t, p, limit) && t.kind(limit) == SyntaxKind::BODY && t.same(limit, n)
        &&& forall|c: int| #[trigger]
            is_child_node(t, p, c) && t.kind(c) == SyntaxKind::BODY && t.same(c, n) ==> limit <= c
    } else {
        limit == t.end(p)
    }
}

/// A child of an `if` is under the conditions of the headers before its body, besides those that it
/// states itself, and then under all that the `if` is under without its own headers.
pub proof fn branches_add_their_conditions(
    t: Tree,
    p: int,
    n: int,
    own: Seq<int>,
    limit: int,
    before: Seq<int>,
    all: Seq<int>,
)
    requires
        t.valid(),
        t.is_node(n),
        t.parent(n) == Some(p),
        t.kind(p) == SyntaxKind::TWIG_IF,
        lists_own_headers(t, n, own),
        is_limit_for(t, p, n, limit),
        lists_headers(t, p, limit, before),
        lists_headers(t, p, t.end(p), all),
    ensures
        ({
            let conditions = context_of(t, n).conditions;
            let k = own.len() as int;
            let m = (own.len() + before.len()) as int;
            &&& m <= conditions.len()
            &&& states(t, p, limit, before, conditions.subrange(k, m))
            &&& conditions.skip(m) == context_of(t, p).conditions.skip(all.len() as int)
        }),
{
    assert(n > 0);
    assert(t.entries[n].parent is Some && 0 <= p < n && t.is_node(p));
    let rest = lemma_own_and_rest(t, n, own);
    let above = lemma_own_and_rest(t, p, all);
    lemma_conditions_of_parent(t, p, n);
    assert(child_towards(t, p, n) == Some(n));
    lemma_counted_body(t, p, n);
    let kids = t.child_nodes(p);
    lemma_child_nodes(t, p);
    lemma_first_is_least(kids, t.same_body(n), limit);
    assert(header_limit(t, p, n) == limit) by {
        if t.kind(n) == SyntaxKind::BODY {
            assert(kids.contains(limit) <==> is_child_node(t, p, limit));
            assert forall|d: int| #[trigger] kids.contains(d) && t.same_body(n)(d) implies limit
                <= d by {
                assert(is_child_node(t, p, d));
            }
        }
    }
    lemma_stated(t, p, limit, before);
    let here = branch_conditions(t, p, n);
    let conditions = context_of(t, n).conditions;
    let k = own.len() as int;
    let m = (own.len() + before.len()) as int;
    assert(rest == here + above);
    assert(conditions.subrange(k, m) == here) by {
        assert(conditions.skip(k) == rest);
        assert forall|i: int| 0 <= i < here.len() implies conditions[k + i] == here[i] by {
            assert(conditions.skip(k)[i] == rest[i]);
        }
    }
    assert(conditions.skip(m) == above) by {
        assert forall|i: int| 0 <= i < above.len() implies conditions[m + i] == above[i] by {
            assert(conditions.skip(k)[here.len() + i] == rest[here.len() + i]);
        }
    }
}

/// The scopes of a node are those of its parent, with the node itself before them if it is a scope.
pub proof fn scopes_come_from_above(t: Tree, n: int)
    requires
        t.valid(),
        t.is_node(n),
    ensures
        ({
            let own = if is_scope_kind(t.kind(n)) {
                seq![(t.kind(n), t.range(n))]
            } else {
                Seq::empty()
            };
            context_of(t, n).scopes == own + (match t.parent(n) {
                Some(p) => context_of(t, p).scopes,
                None => Seq::empty(),
            })
        }),
{
    if n > 0 {
        assert(t.entries[n].parent is Some && 0 <= t.parent(n)->0 < n);
    }
}

// ---- Fragments ----

/// The fragments and the mismatches of a stretch of elements are those of its two parts one after
/// the other, and a token has none.
pub proof fn fragments_go_by_parts(t: Tree, lo: int, mid: int, hi: int)
    requires
        lo <= mid <= hi,
    ensures
        fragments_between(t, lo, hi) == fragments_between(t, lo, mid) + fragments_between(
            t,
            mid,
            hi,
        ),
        mismatches_between(t, lo, hi) == mismatches_between(t, lo, mid) + mismatches_between(
            t,
            mid,
            hi,
        ),
        !t.is_node(lo) ==> fragments_between(t, lo, lo + 1).len() == 0 && mismatches_between(
            t,
            lo,
            lo + 1,
        ).len() == 0,
    decreases hi - mid,
{
    assert(fragments_between(t, lo, lo).len() == 0);
    assert(mismatches_between(t, lo, lo).len() == 0);
    if mid < hi {
        fragments_go_by_parts(t, lo, mid, hi - 1);
        assert(fragments_between(t, lo, hi) == fragments_between(t, lo, mid) + fragments_between(
            t,
            mid,
            hi,
        ));
        assert(mismatches_between(t, lo, hi) == mismatches_between(t, lo, mid)
            + mismatches_between(t, mid, hi));
    } else {
        assert(fragments_between(t, lo, mid) + fragments_between(t, mid, hi) == fragments_between(
            t,
            lo,
            hi,
        ));
        assert(mismatches_between(t, lo, mid) + mismatches_between(t, mid, hi)
            == mismatches_between(t, lo, hi));
    }
}

proof fn lemma_single(t: Tree, n: int)
    requires
        t.is_node(n),
    ensures
        fragments_between(t, n, n + 1) == (match fragment_at(t, n) {
            Some(f) => seq![f],
            None => Seq::empty(),
        }),
        mismatches_between(t, n, n + 1) == (match mismatch_at(t, n) {
            Some(e) => seq![e],
            None => Seq::empty(),
        }),
{
    assert(fragments_between(t, n, n) == Seq::<FragmentView>::empty());
    assert(mismatches_between(t, n, n).len() == 0);
    if let Some(f) = fragment_at(t, n) {
        assert(fragments_between(t, n, n + 1) == seq![f]);
    }
    if let Some(e) = mismatch_at(t, n) {
        assert(mismatches_between(t, n, n + 1) == seq![e]);
    }
}

/// Whether the HTML element at `n` has the opening tag at `s` and the closing tag at `e`.
pub open spec fn has_tags(t: Tree, n: int, s: int, e: int) -> bool {
    &&& t.is_node(n) && t.kind(n) == SyntaxKind::HTML_TAG
    &&& is_first_node(t, n, SyntaxKind::HTML_STARTING_TAG, s)
    &&& is_first_node(t, n, SyntaxKind::HTML_ENDING_TAG, e)
}

/// The fragment with the given name, in the context of the node at `n`.
pub open spec fn named_fragment(
    t: Tree,
    n: int,
    name: (Seq<char>, Seq<char>, TextRange),
    opening: bool,
) -> FragmentView {
    FragmentView {
        name: name.0,
        key: name.1,
        context: context_of(t, n),
        range: name.2,
        opening,
    }
}

/// An HTML element leaves its opening tag as a fragment exactly if that has a name and the closing
/// tag has none. It gives a mismatch exactly if both have names with different keys. This is so
/// wherever the element stands.
pub proof fn elements_leave_their_opening_tag(t: Tree, n: int, s: int, e: int)
    requires
        t.valid(),
        has_tags(t, n, s, e),
    ensures
        fragments_between(t, n, n + 1) == (match (name_of_tag(t, s), name_of_tag(t, e)) {
            (Some(name), None) => seq![named_fragment(t, n, name, true)],
            _ => Seq::empty(),
        }),
        mismatches_between(t, n, n + 1) == (match (name_of_tag(t, s), name_of_tag(t, e)) {
            (Some(opening), Some(closing)) => if opening.1 != closing.1 {
                seq![
                    mismatch_error(
                        named_fragment(t, n, opening, true),
                        named_fragment(t, n, closing, false),
                    ),
                ]
            } else {
                Seq::empty()
            },
            _ => Seq::empty(),
        }),
{
    lemma_single(t, n);
    child_of_kind_is_the_first(t, n, SyntaxKind::HTML_STARTING_TAG, s);
    child_of_kind_is_the_first(t, n, SyntaxKind::HTML_ENDING_TAG, e);
}

/// A closing tag leaves itself as a fragment exactly if it has a name and is not part of an HTML
/// element. This is so wherever it stands.
pub proof fn closing_tags_leave_themselves(t: Tree, n: int)
    requires
        t.valid(),
        t.is_node(n),
        t.kind(n) == SyntaxKind::HTML_ENDING_TAG,
    ensures
        fragments_between(t, n, n + 1) == (match name_of_tag(t, n) {
            Some(name) => if t.parent(n) is Some && t.kind(t.parent(n)->0)
                == SyntaxKind::HTML_TAG {
                Seq::empty()
            } else {
                seq![named_fragment(t, n, name, false)]
            },
            None => Seq::empty(),
        }),
        mismatches_between(t, n, n + 1).len() == 0,
{
    lemma_single(t, n);
}

/// No other node leaves a fragment or gives a mismatch.
pub proof fn other_nodes_leave_nothing(t: Tree, n: int)
    requires
        t.valid(),
        t.is_node(n),
        t.kind(n) != SyntaxKind::HTML_ENDING_TAG,
        t.kind(n) == SyntaxKind::HTML_TAG ==> lacks_node(t, n, SyntaxKind::HTML_STARTING_TAG)
            || lacks_node(t, n, SyntaxKind::HTML_ENDING_TAG),
    ensures
        fragments_between(t, n, n + 1).len() == 0,
        mismatches_between(t, n, n + 1).len() == 0,
{
    lemma_single(t, n);
    child_of_kind_is_the_first(t, n, SyntaxKind::HTML_STARTING_TAG, 0);
    child_of_kind_is_the_first(t, n, SyntaxKind::HTML_ENDING_TAG, 0);
}

/// An HTML element at any depth below the root whose two tags have names with different keys gives
/// an error: at the name of its closing tag, with a note at the name of its opening tag.
pub proof fn different_names_are_reported(
    t: Tree,
    root: int,
    n: int,
    s: int,
    e: int,
    opening: (Seq<char>, Seq<char>, TextRange),
    closing: (Seq<char>, Seq<char>, TextRange),
)
    requires
        t.valid(),
        t.encloses(root, n),
        has_tags(t, n, s, e),
        name_of_tag(t, s) == Some(opening),
        name_of_tag(t, e) == Some(closing),
        opening.1 != closing.1,
    ensures
        exists|k: int|
            0 <= k < errors_below(t, root).len() && (#[trigger] errors_below(t, root)[k]).range
                == closing.2 && errors_below(t, root)[k].found == Some(
                SyntaxKind::TK_LESS_THAN_SLASH,
            ) && errors_below(t, root)[k].secondary == Some(
                (opening.2, "opening <"@ + opening.0 + "> is here"@),
            ),
{
    let hi = t.end(root);
    elements_leave_their_opening_tag(t, n, s, e);
    fragments_go_by_parts(t, root, n, hi);
    fragments_go_by_parts(t, n, n + 1, hi);
    let error = mismatch_error(
        named_fragment(t, n, opening, true),
        named_fragment(t, n, closing, false),
    );
    let k = mismatches_between(t, root, n).len() as int;
    let one = mismatches_between(t, n, n + 1);
    assert(one[0] == error);
    assert(mismatches_between(t, n, hi)[0] == error);
    assert(mismatches_between(t, root, hi)[k] == error);
    assert(errors_below(t, root)[k] == error);
}

/// If there are no errors below the root, the two tags of every HTML element at any depth below it
/// have the same key, if both have names.
pub proof fn without_errors_names_are_equal(
    t: Tree,
    root: int,
    n: int,
    s: int,
    e: int,
    opening: (Seq<char>, Seq<char>, TextRange),
    closing: (Seq<char>, Seq<char>, TextRange),
)
    requires
        t.valid(),
        t.encloses(root, n),
        has_tags(t, n, s, e),
        name_of_tag(t, s) == Some(opening),
        name_of_tag(t, e) == Some(closing),
        errors_below(t, root).len() == 0,
    ensures
        opening.1 == closing.1,
{
    if opening.1 != closing.1 {
        different_names_are_reported(t, root, n, s, e, opening, closing);
    }
}

/// The first conditions of a node in a body of an `if` are those of the headers before that body.
proof fn lemma_first_conditions(t: Tree, p: int, b: int, n: int, limit: int, before: Seq<int>)
    requires
        t.valid(),
        t.is_node(n),
        t.kind(n) != SyntaxKind::TWIG_IF,
        t.parent(n) == Some(b),
        t.kind(b) == SyntaxKind::BODY,
        t.parent(b) == Some(p),
        t.kind(p) == SyntaxKind::TWIG_IF,
        is_limit_for(t, p, b, limit),
        lists_headers(t, p, limit, before),
    ensures
        before.len() <= context_of(t, n).conditions.len(),
        states(t, p, limit, before, context_of(t, n).conditions.take(before.len() as int)),
{
    assert(n > 0);
    assert(t.entries[n].parent is Some && t.is_node(b));
    assert(b > 0) by {
        assert(t.parent(0) is None);
    }
    assert(t.entries[b].parent is Some && t.is_node(p));
    let none = Seq::<int>::empty();
    conditions_come_from_above(t, b, n, none);
    assert(context_of(t, n).conditions.skip(0) == context_of(t, n).conditions);
    let kids = t.child_nodes(p);
    let test = t.condition_header_test();
    let all = kids.filter(test);
    lemma_child_nodes(t, p);
    lemma_filter_sorted(kids, test);
    assert forall|h: int| #[trigger] all.contains(h) <==> states_condition(t, p, h) && h < t.end(
        p,
    ) by {
        assert(kids.contains(h) <==> is_child_node(t, p, h));
        if states_condition(t, p, h) {
            assert(h > 0);
            assert(t.entries[h].parent is Some && h < t.end(p));
        }
    }
    branches_add_their_conditions(t, p, b, none, limit, before, all);
    let cs = context_of(t, b).conditions;
    assert(cs.subrange(0, before.len() as int) == cs.take(before.len() as int));
}

/// Two tags in bodies of `if`s do not fit if, at some place, the conditions of the headers before
/// the two bodies have different tokens.
pub proof fn tags_under_different_conditions_do_not_fit(
    t: Tree,
    p: int,
    b: int,
    n: int,
    limit: int,
    before: Seq<int>,
    e: int,
    opening: FragmentView,
    q: int,
    c: int,
    m: int,
    other_limit: int,
    other_before: Seq<int>,
    f: int,
    closing: FragmentView,
    j: int,
)
    requires
        t.valid(),
        t.is_node(n),
        t.kind(n) != SyntaxKind::TWIG_IF,
        t.parent(n) == Some(b),
        t.kind(b) == SyntaxKind::BODY,
        t.parent(b) == Some(p),
        t.kind(p) == SyntaxKind::TWIG_IF,
        is_limit_for(t, p, b, limit),
        lists_headers(t, p, limit, before),
        opening.context == context_of(t, n),
        t.is_node(m),
        t.kind(m) != SyntaxKind::TWIG_IF,
        t.parent(m) == Some(c),
        t.kind(c) == SyntaxKind::BODY,
        t.parent(c) == Some(q),
        t.kind(q) == SyntaxKind::TWIG_IF,
        is_limit_for(t, q, c, other_limit),
        lists_headers(t, q, other_limit, other_before),
        closing.context == context_of(t, m),
        0 <= j < before.len(),
        j < other_before.len(),
        is_first_node(t, before[j], SyntaxKind::TWIG_EXPRESSION, e),
        is_first_node(t, other_before[j], SyntaxKind::TWIG_EXPRESSION, f),
        t.words_between(e, t.end(e)) != t.words_between(f, t.end(f)),
        all_lack(t.words_between(e, t.end(e)), '\0'),
        all_lack(t.words_between(f, t.end(f)), '\0'),
        !nothing_and_empty(t.words_between(e, t.end(e)), t.words_between(f, t.end(f))),
        !nothing_and_empty(t.words_between(f, t.end(f)), t.words_between(e, t.end(e))),
    ensures
        !fits(opening, closing),
{
    lemma_first_conditions(t, p, b, n, limit, before);
    lemma_first_conditions(t, q, c, m, other_limit, other_before);
    assert(before.contains(before[j]) && other_before.contains(other_before[j]));
    assert(states_condition(t, p, before[j]) && states_condition(t, q, other_before[j]));
    conditions_are_told_apart(t, before[j], e, t, other_before[j], f);
    let x = opening.context.conditions;
    let y = closing.context.conditions;
    assert(x.take(before.len() as int)[j] == x[j]);
    assert(y.take(other_before.len() as int)[j] == y[j]);
}

} // verus!
