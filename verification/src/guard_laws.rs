//! What is known of conditions, which branches are excluded and which annotations are reported,
//! said by the parents, kinds, positions and texts of the elements alone.
use vstd::prelude::*;
use crate::branches::lemma_counted_body;
use crate::kind::SyntaxKind;
use crate::navigation::{
    child_of_kind_is_the_first, header_is_the_last_before, is_child_node, is_child_token,
    is_first_node, is_first_token, lemma_first_is_least, opens_branch,
    token_of_kind_is_the_first,
};
use crate::nodes::{
    lemma_child_nodes, lemma_child_tokens, lemma_encloser_has_text, lemma_encloses_parent,
    lemma_filter_sorted, text_tells_nodes_apart,
};
use crate::rule::Severity;
use crate::text::{is_white_space, lemma_byte_len_positive, trimmed, words};
use crate::text_laws::{
    prefix_is_taken_off, text_without_white_space_is_a_word, white_space_parts_words,
};
use crate::tree::{TextRange, Tree};
use crate::twig_deprecated_feature_guard::{
    Truth, annotated_tag, body_truth, excluded, guarded, is_body_of, missing_guard,
    truth_of, unguarded_finding,
};
use crate::walks::range_covers_text;

verus! {

// ---- Truth ----

/// A conjunction is known to hold exactly if both sides are, and known to fail exactly if one side
/// is. For a disjunction it is the other way round. The negation of what is known is known.
pub proof fn truths_combine(a: Truth, b: Truth)
    ensures
        a.both(b) == Truth::True <==> a == Truth::True && b == Truth::True,
        a.both(b) == Truth::False <==> a == Truth::False || b == Truth::False,
        a.either(b) == Truth::True <==> a == Truth::True || b == Truth::True,
        a.either(b) == Truth::False <==> a == Truth::False && b == Truth::False,
        a.negated() == Truth::True <==> a == Truth::False,
        a.negated() == Truth::False <==> a == Truth::True,
{
}

/// Whether `c` is the first of all child nodes of the node at `n`.
pub open spec fn is_first_of_all(t: Tree, n: int, c: int) -> bool {
    is_child_node(t, n, c) && forall|d: int| #[trigger] is_child_node(t, n, d) ==> c <= d
}

/// Whether the node at `n` has no child nodes.
pub open spec fn has_no_nodes(t: Tree, n: int) -> bool {
    forall|d: int| !#[trigger] is_child_node(t, n, d)
}

proof fn lemma_first_of_all(t: Tree, n: int, c: int)
    requires
        t.valid(),
        t.is_node(n),
    ensures
        t.first_child(n) == Some(c) <==> is_first_of_all(t, n, c),
        t.first_child(n) is None <==> has_no_nodes(t, n),
        t.child_nodes(n).len() == 0 <==> has_no_nodes(t, n),
{
    let kids = t.child_nodes(n);
    lemma_child_nodes(t, n);
    assert forall|d: int| #[trigger] is_child_node(t, n, d) == kids.contains(d) by {}
    if kids.len() > 0 {
        assert(kids.contains(kids[0]));
        assert(is_child_node(t, n, kids[0]));
        assert forall|d: int| #[trigger] is_child_node(t, n, d) implies kids[0] <= d by {
            assert(kids.contains(d));
            let i = choose|i: int| 0 <= i < kids.len() && kids[i] == d;
            if i > 0 {
                assert(kids[0] < kids[i]);
            }
        }
    } else {
        assert forall|d: int| !#[trigger] is_child_node(t, n, d) by {
            assert(!kids.contains(d));
        }
    }
}

/// As much is known of an expression, with or without parentheses, as of the first node in it.
pub proof fn expression_is_as_known_as_its_content(t: Tree, n: int, c: int, flag: Seq<char>)
    requires
        t.valid(),
        t.is_node(n),
        t.kind(n) == SyntaxKind::TWIG_EXPRESSION || t.kind(n)
            == SyntaxKind::TWIG_PARENTHESES_EXPRESSION,
    ensures
        is_first_of_all(t, n, c) ==> truth_of(t, n, flag) == truth_of(t, c, flag),
        has_no_nodes(t, n) ==> truth_of(t, n, flag) == Truth::Unknown,
{
    lemma_first_of_all(t, n, c);
}

/// An expression with a sign before it is known if the sign is `not`: it is then known to be the
/// opposite of the first node in it. Otherwise nothing is known of it.
pub proof fn not_is_the_opposite(t: Tree, n: int, w: int, c: int, flag: Seq<char>)
    requires
        t.valid(),
        t.is_node(n),
        t.kind(n) == SyntaxKind::TWIG_UNARY_EXPRESSION,
    ensures
        is_child_token(t, n, w) && t.kind(w) == SyntaxKind::TK_NOT && is_first_of_all(t, n, c)
            ==> truth_of(t, n, flag) == truth_of(t, c, flag).negated(),
        has_no_nodes(t, n) ==> truth_of(t, n, flag) == Truth::Unknown,
        (forall|d: int| #[trigger] is_child_token(t, n, d) ==> t.kind(d) != SyntaxKind::TK_NOT)
            ==> truth_of(t, n, flag) == Truth::Unknown,
{
    lemma_first_of_all(t, n, c);
    token_of_kind_is_the_first(t, n, SyntaxKind::TK_NOT, w);
}

/// Whether `l` and `r` are the first two operands of the expression at `n`.
pub open spec fn are_operands(t: Tree, n: int, l: int, r: int) -> bool {
    &&& is_first_node(t, n, SyntaxKind::TWIG_EXPRESSION, l)
    &&& is_child_node(t, n, r) && t.kind(r) == SyntaxKind::TWIG_EXPRESSION && l < r
    &&& forall|d: int| #[trigger]
        is_child_node(t, n, d) && t.kind(d) == SyntaxKind::TWIG_EXPRESSION ==> d == l || r <= d
}

/// Whether `o` is the first child token of the node at `n` that is neither white space nor a line
/// break.
pub open spec fn is_operator(t: Tree, n: int, o: int) -> bool {
    &&& is_child_token(t, n, o)
    &&& t.kind(o) != SyntaxKind::TK_WHITESPACE && t.kind(o) != SyntaxKind::TK_LINE_BREAK
    &&& forall|d: int| #[trigger]
        is_child_token(t, n, d) && t.kind(d) != SyntaxKind::TK_WHITESPACE && t.kind(d)
            != SyntaxKind::TK_LINE_BREAK ==> o <= d
}

proof fn lemma_operands_are(t: Tree, n: int, l: int, r: int, o: int)
    requires
        t.valid(),
        t.is_node(n),
    ensures
        are_operands(t, n, l, r) ==> t.child_of_kind(n, SyntaxKind::TWIG_EXPRESSION) == Some(l)
            && t.rhs_expression(n) == Some(r),
        t.rhs_expression(n) == Some(r) ==> are_operands(
            t,
            n,
            t.child_of_kind(n, SyntaxKind::TWIG_EXPRESSION)->0,
            r,
        ),
        t.operator(n) == Some(o) <==> is_operator(t, n, o),
{
    let kids = t.child_nodes(n);
    let p = t.has_kind(SyntaxKind::TWIG_EXPRESSION);
    let operands = kids.filter(p);
    lemma_child_nodes(t, n);
    lemma_filter_sorted(kids, p);
    child_of_kind_is_the_first(t, n, SyntaxKind::TWIG_EXPRESSION, l);
    assert forall|d: int|
        (#[trigger] is_child_node(t, n, d) && t.kind(d) == SyntaxKind::TWIG_EXPRESSION)
            == operands.contains(d) by {
        assert(operands.contains(d) <==> kids.contains(d) && p(d));
    }
    if are_operands(t, n, l, r) {
        assert(operands.contains(l) && operands.contains(r));
        let i = choose|i: int| 0 <= i < operands.len() && operands[i] == l;
        let j = choose|j: int| 0 <= j < operands.len() && operands[j] == r;
        assert(operands.contains(operands[0]) && is_child_node(t, n, operands[0]));
        if i > 0 {
            assert(operands[0] < operands[i]);
        }
        if j < 1 {
            assert(false);
        }
        assert(operands.contains(operands[1]) && is_child_node(t, n, operands[1]));
        assert(operands[0] < operands[1]);
        if j > 1 {
            assert(operands[1] < operands[j]);
        }
    }
    if t.rhs_expression(n) == Some(r) {
        let x = operands[0];
        assert(operands.contains(x) && is_child_node(t, n, x));
        assert(operands.contains(r) && is_child_node(t, n, r)) by {
            assert(operands[1] == r);
        }
        assert forall|d: int| #[trigger]
            is_child_node(t, n, d) && t.kind(d) == SyntaxKind::TWIG_EXPRESSION implies d == x || r
            <= d by {
            assert(operands.contains(d));
            let i = choose|i: int| 0 <= i < operands.len() && operands[i] == d;
            if i > 1 {
                assert(operands[1] < operands[i]);
            }
        }
        assert(x < r);
        assert(is_first_node(t, n, SyntaxKind::TWIG_EXPRESSION, x));
        child_of_kind_is_the_first(t, n, SyntaxKind::TWIG_EXPRESSION, x);
    }
    let s = t.child_tokens(n);
    let q = t.not_trivia();
    lemma_child_tokens(t, n);
    lemma_first_is_least(s, q, o);
    assert forall|d: int| #[trigger] is_child_token(t, n, d) == s.contains(d) by {}
    if t.operator(n) == Some(o) {
        assert(s.contains(o));
        assert forall|d: int| #[trigger]
            is_child_token(t, n, d) && t.kind(d) != SyntaxKind::TK_WHITESPACE && t.kind(d)
                != SyntaxKind::TK_LINE_BREAK implies o <= d by {
            assert(s.contains(d) && q(d));
        }
    }
    if is_operator(t, n, o) {
        assert(s.contains(o) && q(o));
        assert forall|d: int| #[trigger] s.contains(d) && q(d) implies o <= d by {
            assert(is_child_token(t, n, d));
        }
    }
}

/// What is known of an expression with two operands follows from what is known of them, if the
/// operator is `and` or `or`. Nothing is known with any other operator.
pub proof fn operators_combine_what_is_known(
    t: Tree,
    n: int,
    l: int,
    r: int,
    o: int,
    flag: Seq<char>,
)
    requires
        t.valid(),
        t.is_node(n),
        t.kind(n) == SyntaxKind::TWIG_BINARY_EXPRESSION,
        are_operands(t, n, l, r),
        is_operator(t, n, o),
    ensures
        t.kind(o) == SyntaxKind::TK_AND ==> truth_of(t, n, flag) == truth_of(t, l, flag).both(
            truth_of(t, r, flag),
        ),
        t.kind(o) == SyntaxKind::TK_OR ==> truth_of(t, n, flag) == truth_of(t, l, flag).either(
            truth_of(t, r, flag),
        ),
        t.kind(o) != SyntaxKind::TK_AND && t.kind(o) != SyntaxKind::TK_OR ==> truth_of(t, n, flag)
            == Truth::Unknown,
{
    lemma_operands_are(t, n, l, r, o);
}

/// Something is known of an expression with two operands only if it has both and an operator.
pub proof fn incomplete_operation_is_unknown(t: Tree, n: int, flag: Seq<char>)
    requires
        t.valid(),
        t.is_node(n),
        t.kind(n) == SyntaxKind::TWIG_BINARY_EXPRESSION,
        truth_of(t, n, flag) != Truth::Unknown,
    ensures
        exists|l: int, r: int| #[trigger] are_operands(t, n, l, r),
        exists|o: int| #[trigger] is_operator(t, n, o),
{
    let l = t.child_of_kind(n, SyntaxKind::TWIG_EXPRESSION)->0;
    let r = t.rhs_expression(n)->0;
    let o = t.operator(n)->0;
    lemma_operands_are(t, n, l, r, o);
    assert(are_operands(t, n, l, r));
    assert(is_operator(t, n, o));
}

/// Whether the call at `n` calls the function whose name is the word at `w`, found in the operand
/// at `o` and the name at `m`.
pub open spec fn calls(t: Tree, n: int, o: int, m: int, w: int) -> bool {
    &&& is_first_node(t, n, SyntaxKind::TWIG_OPERAND, o)
    &&& is_first_node(t, o, SyntaxKind::TWIG_LITERAL_NAME, m)
    &&& is_first_token(t, m, SyntaxKind::TK_WORD, w)
}

/// Whether the call at `n` has the arguments at `g`, of which there is one, the expression at `a`,
/// with the string at `s` in it, whose inside is at `i` and has no nodes.
pub open spec fn has_plain_argument(t: Tree, n: int, g: int, a: int, s: int, i: int) -> bool {
    &&& is_first_node(t, n, SyntaxKind::TWIG_ARGUMENTS, g)
    &&& is_child_node(t, g, a) && forall|d: int| #[trigger] is_child_node(t, g, d) ==> d == a
    &&& t.kind(a) == SyntaxKind::TWIG_EXPRESSION
    &&& is_first_node(t, a, SyntaxKind::TWIG_LITERAL_STRING, s)
    &&& is_first_node(t, s, SyntaxKind::TWIG_LITERAL_STRING_INNER, i)
    &&& has_no_nodes(t, i)
}

/// A call is known to hold if it asks for the flag: the function is `feature` and the text of its
/// one plain argument is the flag. Wherever it stands, and whatever else it contains.
pub proof fn asking_for_the_flag_is_true(
    t: Tree,
    n: int,
    o: int,
    m: int,
    w: int,
    g: int,
    a: int,
    s: int,
    i: int,
    flag: Seq<char>,
)
    requires
        t.valid(),
        t.is_node(n),
        t.kind(n) == SyntaxKind::TWIG_FUNCTION_CALL,
        calls(t, n, o, m, w),
        has_plain_argument(t, n, g, a, s, i),
    ensures
        truth_of(t, n, flag) == (if t.token_text(w) == "feature"@ && t.text(i) == flag {
            Truth::True
        } else {
            Truth::Unknown
        }),
{
    child_of_kind_is_the_first(t, n, SyntaxKind::TWIG_OPERAND, o);
    child_of_kind_is_the_first(t, o, SyntaxKind::TWIG_LITERAL_NAME, m);
    token_of_kind_is_the_first(t, m, SyntaxKind::TK_WORD, w);
    child_of_kind_is_the_first(t, n, SyntaxKind::TWIG_ARGUMENTS, g);
    child_of_kind_is_the_first(t, a, SyntaxKind::TWIG_LITERAL_STRING, s);
    child_of_kind_is_the_first(t, s, SyntaxKind::TWIG_LITERAL_STRING_INNER, i);
    lemma_first_of_all(t, i, i);
    let kids = t.child_nodes(g);
    lemma_child_nodes(t, g);
    assert(kids.contains(a));
    assert(kids.contains(kids[0]) && is_child_node(t, g, kids[0]));
    if kids.len() > 1 {
        assert(kids.contains(kids[1]) && is_child_node(t, g, kids[1]));
        assert(kids[0] < kids[1]);
    }
}

/// A call of which something is known names a function and has one plain argument.
pub proof fn other_calls_are_unknown(t: Tree, n: int, flag: Seq<char>)
    requires
        t.valid(),
        t.is_node(n),
        t.kind(n) == SyntaxKind::TWIG_FUNCTION_CALL,
        truth_of(t, n, flag) != Truth::Unknown,
    ensures
        exists|o: int, m: int, w: int| #[trigger] calls(t, n, o, m, w),
        exists|g: int, a: int, s: int, i: int| #[trigger] has_plain_argument(t, n, g, a, s, i),
{
    let o = t.child_of_kind(n, SyntaxKind::TWIG_OPERAND)->0;
    child_of_kind_is_the_first(t, n, SyntaxKind::TWIG_OPERAND, o);
    let m = t.child_of_kind(o, SyntaxKind::TWIG_LITERAL_NAME)->0;
    child_of_kind_is_the_first(t, o, SyntaxKind::TWIG_LITERAL_NAME, m);
    let w = t.token_of_kind(m, SyntaxKind::TK_WORD)->0;
    token_of_kind_is_the_first(t, m, SyntaxKind::TK_WORD, w);
    assert(calls(t, n, o, m, w));
    let g = t.child_of_kind(n, SyntaxKind::TWIG_ARGUMENTS)->0;
    child_of_kind_is_the_first(t, n, SyntaxKind::TWIG_ARGUMENTS, g);
    let kids = t.child_nodes(g);
    let a = kids[0];
    lemma_child_nodes(t, g);
    assert(kids.contains(a));
    assert forall|d: int| #[trigger] is_child_node(t, g, d) implies d == a by {
        assert(kids.contains(d));
    }
    let s = t.child_of_kind(a, SyntaxKind::TWIG_LITERAL_STRING)->0;
    child_of_kind_is_the_first(t, a, SyntaxKind::TWIG_LITERAL_STRING, s);
    let i = t.child_of_kind(s, SyntaxKind::TWIG_LITERAL_STRING_INNER)->0;
    child_of_kind_is_the_first(t, s, SyntaxKind::TWIG_LITERAL_STRING_INNER, i);
    lemma_first_of_all(t, i, i);
    assert(has_plain_argument(t, n, g, a, s, i));
}

/// A boolean literal is known by its text up to the white space around it. Of an element of any
/// other kind than those spoken of here nothing is known.
pub proof fn literals_are_known_by_their_text(t: Tree, n: int, flag: Seq<char>)
    requires
        t.valid(),
        t.is_node(n),
    ensures
        t.kind(n) == SyntaxKind::TWIG_LITERAL_BOOLEAN ==> {
            &&& truth_of(t, n, flag) == Truth::True <==> trimmed(t.text(n)) == "true"@
            &&& truth_of(t, n, flag) == Truth::False <==> trimmed(t.text(n)) == "false"@
        },
        t.kind(n) != SyntaxKind::TWIG_LITERAL_BOOLEAN && t.kind(n)
            != SyntaxKind::TWIG_FUNCTION_CALL && t.kind(n) != SyntaxKind::TWIG_BINARY_EXPRESSION
            && t.kind(n) != SyntaxKind::TWIG_UNARY_EXPRESSION && t.kind(n)
            != SyntaxKind::TWIG_PARENTHESES_EXPRESSION && t.kind(n) != SyntaxKind::TWIG_EXPRESSION
            ==> truth_of(t, n, flag) == Truth::Unknown,
{
    reveal_strlit("true");
    reveal_strlit("false");
    assert("true"@.len() != "false"@.len());
}

// ---- Branches ----

/// Whether `b` is a body of the `if` at `p`.
pub open spec fn is_if_body(t: Tree, p: int, b: int) -> bool {
    t.kind(p) == SyntaxKind::TWIG_IF && is_child_node(t, p, b) && t.kind(b) == SyntaxKind::BODY
}

/// Whether `h` is the last header of the `if` at `p` before `b`.
pub open spec fn is_header_for(t: Tree, p: int, b: int, h: int) -> bool {
    &&& opens_branch(t, p, h)
    &&& h < b
    &&& forall|g: int| #[trigger] opens_branch(t, p, g) && g < b ==> g <= h
}

/// Whether the expression at `e` is the condition of the header at `h`.
pub open spec fn is_condition_of(t: Tree, h: int, e: int) -> bool {
    &&& t.kind(h) == SyntaxKind::TWIG_IF_BLOCK || t.kind(h) == SyntaxKind::TWIG_ELSE_IF_BLOCK
    &&& is_first_node(t, h, SyntaxKind::TWIG_EXPRESSION, e)
}

/// Whether a header before `b` has a condition that is known to fail.
pub open spec fn condition_fails(t: Tree, p: int, b: int, flag: Seq<char>) -> bool {
    exists|h: int, e: int| #[trigger]
        is_header_for(t, p, b, h) && #[trigger] is_condition_of(t, h, e) && truth_of(t, e, flag)
            == Truth::False
}

/// Whether the header before `b` is an `else` or has a condition that is known to hold.
pub open spec fn condition_holds(t: Tree, p: int, b: int, flag: Seq<char>) -> bool {
    ||| exists|h: int| #[trigger]
        is_header_for(t, p, b, h) && t.kind(h) == SyntaxKind::TWIG_ELSE_BLOCK
    ||| exists|h: int, e: int| #[trigger]
        is_header_for(t, p, b, h) && #[trigger] is_condition_of(t, h, e) && truth_of(t, e, flag)
            == Truth::True
}

proof fn lemma_body_truth(t: Tree, p: int, b: int, flag: Seq<char>)
    requires
        t.valid(),
        t.is_node(p),
    ensures
        body_truth(t, p, b, flag) == Truth::False <==> condition_fails(t, p, b, flag),
        body_truth(t, p, b, flag) == Truth::True <==> condition_holds(t, p, b, flag),
{
    assert forall|h: int| #[trigger] is_header_for(t, p, b, h) implies t.header_of(p, b) == Some(
        h,
    ) by {
        header_is_the_last_before(t, p, b, h);
    }
    assert forall|h: int, e: int| t.is_node(h) && #[trigger] is_condition_of(t, h, e) implies
        t.child_of_kind(h, SyntaxKind::TWIG_EXPRESSION) == Some(e) by {
        child_of_kind_is_the_first(t, h, SyntaxKind::TWIG_EXPRESSION, e);
    }
    if let Some(h) = t.header_of(p, b) {
        header_is_the_last_before(t, p, b, h);
        assert(is_header_for(t, p, b, h));
        if let Some(e) = t.child_of_kind(h, SyntaxKind::TWIG_EXPRESSION) {
            child_of_kind_is_the_first(t, h, SyntaxKind::TWIG_EXPRESSION, e);
            if t.kind(h) != SyntaxKind::TWIG_ELSE_BLOCK {
                assert(is_condition_of(t, h, e));
            }
        }
    }
}

/// A body is excluded exactly if its own condition is known to fail or that of an earlier body of
/// the same `if` is known to hold. This is so for every `if`, wherever it stands, and for every
/// body that is not taken for an earlier one.
pub proof fn body_is_excluded_by_conditions(t: Tree, p: int, b: int, flag: Seq<char>)
    requires
        t.valid(),
        t.is_node(p),
        is_if_body(t, p, b),
        forall|c: int| #[trigger] is_if_body(t, p, c) && t.same(c, b) ==> b <= c,
    ensures
        excluded(t, b, flag) <==> condition_fails(t, p, b, flag) || exists|c: int| #[trigger]
            is_if_body(t, p, c) && c < b && condition_holds(t, p, c, flag),
{
    lemma_counted_body(t, p, b);
    let x = t.counted_body(p, b)->0;
    assert(is_if_body(t, p, x) && t.same(x, b));
    assert(x == b);
    lemma_body_truth(t, p, b, flag);
    assert forall|c: int| #[trigger] is_if_body(t, p, c) implies is_body_of(t, p, c) && (body_truth(
        t,
        p,
        c,
        flag,
    ) == Truth::True <==> condition_holds(t, p, c, flag)) by {
        lemma_body_truth(t, p, c, flag);
    }
    if excluded(t, b, flag) && body_truth(t, p, b, flag) != Truth::False {
        let c = choose|c: int| #[trigger]
            is_body_of(t, p, c) && c < b && body_truth(t, p, c, flag) == Truth::True;
        assert(is_if_body(t, p, c));
    }
    if exists|c: int| #[trigger]
        is_if_body(t, p, c) && c < b && condition_holds(t, p, c, flag) {
        let c = choose|c: int| #[trigger]
            is_if_body(t, p, c) && c < b && condition_holds(t, p, c, flag);
        assert(is_body_of(t, p, c));
    }
}

/// A body with some text is taken for no earlier one.
pub proof fn body_with_text_is_the_first(t: Tree, p: int, b: int)
    requires
        t.valid(),
        is_if_body(t, p, b),
        t.range(b).start < t.range(b).end,
    ensures
        forall|c: int| #[trigger] is_if_body(t, p, c) && t.same(c, b) ==> b <= c,
{
    assert forall|c: int| #[trigger] is_if_body(t, p, c) && t.same(c, b) implies b <= c by {
        text_tells_nodes_apart(t, b, c);
    }
}

/// Bodies of one `if` that are taken for the same are excluded together, and only bodies of an `if`
/// are excluded.
pub proof fn same_bodies_are_excluded_together(t: Tree, p: int, b: int, c: int, flag: Seq<char>)
    requires
        t.valid(),
        t.is_node(b),
        t.is_node(c),
        t.parent(b) == Some(p),
        t.parent(c) == Some(p),
        t.same(b, c),
    ensures
        excluded(t, b, flag) == excluded(t, c, flag),
        excluded(t, b, flag) ==> is_if_body(t, p, b),
{
    assert(b > 0);
    assert(t.is_node(p));
    lemma_counted_body(t, p, b);
    lemma_counted_body(t, p, c);
    lemma_child_nodes(t, p);
    if let Some(x) = t.counted_body(p, b) {
        lemma_first_is_least(t.child_nodes(p), t.same_body(b), x);
        lemma_first_is_least(t.child_nodes(p), t.same_body(c), x);
        assert forall|d: int| t.same_body(b)(d) == #[trigger] t.same_body(c)(d) by {}
    }
    if let Some(x) = t.counted_body(p, c) {
        lemma_first_is_least(t.child_nodes(p), t.same_body(b), x);
        lemma_first_is_least(t.child_nodes(p), t.same_body(c), x);
        assert forall|d: int| t.same_body(b)(d) == #[trigger] t.same_body(c)(d) by {}
    }
}

/// Nothing that is not a body of an `if` is excluded.
pub proof fn only_bodies_are_excluded(t: Tree, n: int, flag: Seq<char>)
    requires
        t.valid(),
        t.is_node(n),
        excluded(t, n, flag),
    ensures
        t.parent(n) matches Some(p) && is_if_body(t, p, n),
{
    let p = t.parent(n)->0;
    assert(n > 0);
    lemma_counted_body(t, p, n);
}

/// A node is guarded exactly if it is an excluded body itself or its parent is guarded.
pub proof fn guards_come_from_above(t: Tree, n: int, flag: Seq<char>)
    requires
        t.valid(),
        t.is_node(n),
    ensures
        guarded(t, n, flag) <==> (t.kind(n) == SyntaxKind::BODY && excluded(t, n, flag)) || (
        t.parent(n) is Some && guarded(t, t.parent(n)->0, flag)),
{
    assert(n < t.entries[n].end);
    if guarded(t, n, flag) {
        let b = choose|b: int| #[trigger]
            t.encloses(b, n) && t.kind(b) == SyntaxKind::BODY && excluded(t, b, flag);
        lemma_encloses_parent(t, b, n);
    }
    if t.kind(n) == SyntaxKind::BODY && excluded(t, n, flag) {
        assert(t.encloses(n, n));
    }
    if t.parent(n) is Some && guarded(t, t.parent(n)->0, flag) {
        let b = choose|b: int| #[trigger]
            t.encloses(b, t.parent(n)->0) && t.kind(b) == SyntaxKind::BODY && excluded(t, b, flag);
        lemma_encloses_parent(t, b, n);
        assert(t.encloses(b, n));
    }
}

// ---- Annotations ----

/// The tag of a comment is what follows `tag:` in the word after the first word `@deprecated`,
/// wherever in the comment that is. There is no tag only if there is no such word.
pub proof fn tag_follows_the_annotation(comment: Seq<char>, i: int, tag: Seq<char>)
    requires
        0 <= i < words(comment).len(),
        words(comment)[i] == "@deprecated"@,
        forall|j: int| 0 <= j < i ==> #[trigger] words(comment)[j] != "@deprecated"@,
    ensures
        annotated_tag(comment) == Some(tag) <==> i + 1 < words(comment).len() && words(comment)[i
            + 1] == "tag:"@ + tag,
        annotated_tag(comment) is None ==> i + 1 >= words(comment).len() || words(comment)[i + 1]
            != "tag:"@ + tag,
{
    let ws = words(comment);
    ws.index_of_first_ensures("@deprecated"@);
    assert(ws.contains("@deprecated"@));
    assert(ws.index_of_first("@deprecated"@) == Some(i));
    if i + 1 < ws.len() {
        prefix_is_taken_off(ws[i + 1], "tag:"@, tag);
    }
}

/// A comment without the word `@deprecated` has no tag.
pub proof fn no_tag_without_annotation(comment: Seq<char>)
    requires
        forall|j: int| 0 <= j < words(comment).len() ==> #[trigger] words(comment)[j]
            != "@deprecated"@,
    ensures
        annotated_tag(comment) is None,
{
    words(comment).index_of_first_ensures("@deprecated"@);
}

/// Whether the text has the word `@deprecated`, followed by a word that is `tag:` and `tag`, and no
/// word `@deprecated` before that.
pub open spec fn annotates(text: Seq<char>, tag: Seq<char>) -> bool {
    exists|i: int|
        0 <= i && i + 1 < words(text).len() && #[trigger] words(text)[i] == "@deprecated"@ && words(
            text,
        )[i + 1] == "tag:"@ + tag && forall|j: int|
            0 <= j < i ==> #[trigger] words(text)[j] != "@deprecated"@
}

proof fn lemma_annotates(text: Seq<char>, tag: Seq<char>)
    ensures
        annotates(text, tag) <==> annotated_tag(text) == Some(tag),
{
    let ws = words(text);
    if annotates(text, tag) {
        let i = choose|i: int|
            0 <= i && i + 1 < words(text).len() && #[trigger] words(text)[i] == "@deprecated"@
                && words(text)[i + 1] == "tag:"@ + tag && forall|j: int|
                0 <= j < i ==> #[trigger] words(text)[j] != "@deprecated"@;
        tag_follows_the_annotation(text, i, tag);
    }
    if annotated_tag(text) == Some(tag) {
        ws.index_of_first_ensures("@deprecated"@);
        let i = ws.index_of_first("@deprecated"@)->0;
        assert forall|j: int| 0 <= j < i implies #[trigger] ws[j] != "@deprecated"@ by {}
        tag_follows_the_annotation(text, i, tag);
        assert(words(text)[i] == "@deprecated"@);
    }
}

/// An annotation in the middle of a text gives its tag, whatever stands before and after it.
pub proof fn annotation_counts_anywhere(
    before: Seq<char>,
    a: char,
    b: char,
    tag: Seq<char>,
    c: char,
    after: Seq<char>,
)
    requires
        forall|j: int| 0 <= j < words(before).len() ==> #[trigger] words(before)[j]
            != "@deprecated"@,
        is_white_space(a),
        is_white_space(b),
        is_white_space(c),
        forall|j: int| 0 <= j < tag.len() ==> !is_white_space(#[trigger] tag[j]),
    ensures
        annotated_tag(
            before.push(a) + ("@deprecated"@.push(b) + (("tag:"@ + tag).push(c) + after)),
        ) == Some(tag),
{
    reveal_strlit("@deprecated");
    reveal_strlit("tag:");
    let word = "tag:"@ + tag;
    let rest = word.push(c) + after;
    let all = "@deprecated"@.push(b) + rest;
    let text = before.push(a) + all;
    white_space_parts_words(before, a, all);
    white_space_parts_words("@deprecated"@, b, rest);
    white_space_parts_words(word, c, after);
    text_without_white_space_is_a_word("@deprecated"@);
    assert forall|j: int| 0 <= j < word.len() implies !is_white_space(#[trigger] word[j]) by {
        if j >= 4 {
            assert(word[j] == tag[j - 4]);
        } else {
            assert(word[j] == "tag:"@[j]);
        }
    }
    text_without_white_space_is_a_word(word);
    let n = words(before).len() as int;
    assert(words(text)[n] == "@deprecated"@);
    assert(words(text)[n + 1] == word);
    assert forall|j: int| 0 <= j < n implies #[trigger] words(text)[j] != "@deprecated"@ by {
        assert(words(text)[j] == words(before)[j]);
    }
    tag_follows_the_annotation(text, n, tag);
}

/// The rule reports exactly the comments with an annotation whose tag is configured and that are
/// not guarded by the flag of the tag: the flag is the one that is missing.
pub proof fn unguarded_annotations_are_reported(
    t: Tree,
    n: int,
    flags: Map<Seq<char>, Seq<char>>,
    tag: Seq<char>,
)
    requires
        t.valid(),
        t.is_node(n),
    ensures
        t.kind(n) == SyntaxKind::TWIG_COMMENT && annotates(t.text(n), tag) ==> missing_guard(
            t,
            n,
            flags,
        ) == (if flags.contains_key(tag) && !guarded(t, n, flags[tag]) {
            Some(flags[tag])
        } else {
            None
        }),
        missing_guard(t, n, flags) is Some ==> t.kind(n) == SyntaxKind::TWIG_COMMENT && exists|
            tag: Seq<char>,
        | #[trigger] annotates(t.text(n), tag),
{
    lemma_annotates(t.text(n), tag);
    if missing_guard(t, n, flags) is Some {
        let found = annotated_tag(t.text(n))->0;
        lemma_annotates(t.text(n), found);
        assert(annotates(t.text(n), found));
    }
}

/// An annotation is not reported if it is anywhere below a body, of an `if` that stands anywhere,
/// whose condition is known to fail with the flag enabled, or which comes after a body of the same
/// `if` whose condition is known to hold.
pub proof fn annotation_in_excluded_body_is_accepted(
    t: Tree,
    n: int,
    flags: Map<Seq<char>, Seq<char>>,
    tag: Seq<char>,
    p: int,
    b: int,
)
    requires
        t.valid(),
        t.is_node(n),
        t.kind(n) == SyntaxKind::TWIG_COMMENT,
        annotates(t.text(n), tag),
        flags.contains_key(tag),
        is_if_body(t, p, b),
        t.encloses(b, n),
        condition_fails(t, p, b, flags[tag]) || exists|c: int| #[trigger]
            is_if_body(t, p, c) && c < b && condition_holds(t, p, c, flags[tag]),
    ensures
        missing_guard(t, n, flags) is None,
{
    unguarded_annotations_are_reported(t, n, flags, tag);
    if t.text(n).len() == 0 {
        assert(words(t.text(n)).len() == 0);
    }
    lemma_byte_len_positive(t.text(n));
    range_covers_text(t, n);
    lemma_encloser_has_text(t, b, n);
    body_with_text_is_the_first(t, p, b);
    assert(b > 0);
    body_is_excluded_by_conditions(t, p, b, flags[tag]);
    assert(excluded(t, b, flags[tag]));
    assert(guarded(t, n, flags[tag]));
}

/// The finding for a comment is at the comment and names the flag.
pub proof fn finding_names_the_flag(range: TextRange, flag: Seq<char>)
    ensures
        ({
            let finding = unguarded_finding(range, flag);
            &&& finding.rule_name == "twig-deprecated-feature-guard"@
            &&& finding.severity == Severity::Error
            &&& finding.message == "deprecated Twig code is not guarded by its feature flag"@
            &&& finding.secondary.len() == 0
            &&& finding.primary matches Some(note) && note.range == range && note.message
                == "place this annotation in a branch where feature('"@ + flag + "') is false"@
        }),
{
}

} // verus!
