//! Deprecated template code must not run when the feature flag that replaces it is enabled.
use vstd::prelude::*;
use crate::branches::{
    body_with_text_counts_itself, is_condition_header, lemma_counted_body, lemma_filter_below,
};
use crate::kind::{SyntaxKind, is_trivia_kind};
use crate::nodes::{
    first, int_of, ints, lemma_child_nodes, lemma_child_of_kind, lemma_child_tokens,
    lemma_encloser_has_text, lemma_encloses_parent, lemma_filter_nothing, lemma_filter_sorted,
    lemma_filter_step, lemma_first, lemma_first_step,
};
use crate::rule::{CheckResult, Finding, Note, RuleRunContext, Severity, findings};
use crate::text::{
    after_prefix, concat3, lemma_byte_len_positive, same_text, split_whitespace, strip_prefix, trim,
    trimmed, views, words,
};
use crate::tree::{SyntaxTree, TextRange, Tree};
use crate::walks::range_covers_text;

verus! {

/// What is known of a condition.
#[derive(Clone, Copy, Debug, PartialEq, Eq, Structural)]
pub enum Truth {
    True,
    False,
    Unknown,
}

impl Truth {
    pub open spec fn negated(self) -> Truth {
        match self {
            Truth::True => Truth::False,
            Truth::False => Truth::True,
            Truth::Unknown => Truth::Unknown,
        }
    }

    pub open spec fn both(self, other: Truth) -> Truth {
        if self == Truth::False || other == Truth::False {
            Truth::False
        } else if self == Truth::True && other == Truth::True {
            Truth::True
        } else {
            Truth::Unknown
        }
    }

    pub open spec fn either(self, other: Truth) -> Truth {
        if self == Truth::True || other == Truth::True {
            Truth::True
        } else if self == Truth::False && other == Truth::False {
            Truth::False
        } else {
            Truth::Unknown
        }
    }

    /// Whether a condition of which this is known can have the value `value`.
    pub open spec fn allows(self, value: bool) -> bool {
        match self {
            Truth::True => value,
            Truth::False => !value,
            Truth::Unknown => true,
        }
    }

    /// What is known of the opposite condition.
    pub fn negate(self) -> (truth: Truth)
        ensures
            truth == self.negated(),
    {
        match self {
            Truth::True => Truth::False,
            Truth::False => Truth::True,
            Truth::Unknown => Truth::Unknown,
        }
    }

    /// What is known of the conjunction of two conditions.
    pub fn and(self, other: Truth) -> (truth: Truth)
        ensures
            truth == self.both(other),
    {
        match (self, other) {
            (Truth::False, _) | (_, Truth::False) => Truth::False,
            (Truth::True, Truth::True) => Truth::True,
            _ => Truth::Unknown,
        }
    }

    /// What is known of the disjunction of two conditions.
    pub fn or(self, other: Truth) -> (truth: Truth)
        ensures
            truth == self.either(other),
    {
        match (self, other) {
            (Truth::True, _) | (_, Truth::True) => Truth::True,
            (Truth::False, Truth::False) => Truth::False,
            _ => Truth::Unknown,
        }
    }
}

impl Tree {
    /// The first child node.
    pub open spec fn first_child(self, n: int) -> Option<int> {
        if self.child_nodes(n).len() > 0 {
            Some(self.child_nodes(n)[0])
        } else {
            None
        }
    }

    /// The right operand of the binary expression at `n`: its second child that is an expression.
    pub open spec fn rhs_expression(self, n: int) -> Option<int> {
        let operands = self.child_nodes(n).filter(self.has_kind(SyntaxKind::TWIG_EXPRESSION));
        if operands.len() > 1 {
            Some(operands[1])
        } else {
            None
        }
    }

    /// The test for kinds that are not trivia.
    pub open spec fn not_trivia(self) -> spec_fn(int) -> bool {
        |c: int| !is_trivia_kind(self.kind(c))
    }

    /// The operator of the binary expression at `n`: its first token that is not trivia.
    pub open spec fn operator(self, n: int) -> Option<int> {
        first(self.child_tokens(n), self.not_trivia())
    }

    /// Whether the function call at `n` is `feature` with the one argument `flag`, a plain string.
    pub open spec fn is_feature_call(self, n: int, flag: Seq<char>) -> bool {
        &&& self.child_of_kind(n, SyntaxKind::TWIG_OPERAND) matches Some(operand)
        &&& self.child_of_kind(operand, SyntaxKind::TWIG_LITERAL_NAME) matches Some(name)
        &&& self.token_of_kind(name, SyntaxKind::TK_WORD) matches Some(word)
        &&& self.token_text(word) == "feature"@
        &&& self.child_of_kind(n, SyntaxKind::TWIG_ARGUMENTS) matches Some(arguments)
        &&& self.child_nodes(arguments).len() == 1
        &&& self.kind(self.child_nodes(arguments)[0]) == SyntaxKind::TWIG_EXPRESSION
        &&& self.child_of_kind(
            self.child_nodes(arguments)[0],
            SyntaxKind::TWIG_LITERAL_STRING,
        ) matches Some(value)
        &&& self.child_of_kind(value, SyntaxKind::TWIG_LITERAL_STRING_INNER) matches Some(inner)
        &&& self.child_nodes(inner).len() == 0
        &&& self.text(inner) == flag
    }
}

/// The operands and the operator of a binary expression stand below it.
pub proof fn lemma_operands(t: Tree, n: int)
    requires
        t.valid(),
        t.is_node(n),
    ensures
        t.first_child(n) matches Some(c) ==> n < c < t.end(n) && t.end(c) <= t.end(n) && t.is_node(
            c,
        ),
        t.child_of_kind(n, SyntaxKind::TWIG_EXPRESSION) matches Some(c) ==> n < c < t.end(n)
            && t.end(c) <= t.end(n) && t.is_node(c),
        t.rhs_expression(n) matches Some(c) ==> n < c < t.end(n) && t.end(c) <= t.end(n)
            && t.is_node(c),
        t.operator(n) matches Some(c) ==> t.is_token(c),
{
    lemma_child_nodes(t, n);
    lemma_child_of_kind(t, n, SyntaxKind::TWIG_EXPRESSION);
    let kids = t.child_nodes(n);
    let is_expression = t.has_kind(SyntaxKind::TWIG_EXPRESSION);
    let operands = kids.filter(is_expression);
    lemma_filter_sorted(kids, is_expression);
    if operands.len() > 1 {
        assert(kids.contains(operands[1]));
    }
    lemma_child_tokens(t, n);
    lemma_first(t.child_tokens(n), t.not_trivia());
}

/// What is known of the condition at `n` when the feature flag `flag` is enabled. Nothing is
/// known of anything but the flag itself, the literals and what they make up.
pub open spec fn truth_of(t: Tree, n: int, flag: Seq<char>) -> Truth
    decreases t.end(n) - n,
    when t.valid() && t.is_node(n)
{
    proof {
        lemma_operands(t, n);
    }
    match t.kind(n) {
        SyntaxKind::TWIG_EXPRESSION | SyntaxKind::TWIG_PARENTHESES_EXPRESSION => {
            match t.first_child(n) {
                Some(child) => truth_of(t, child, flag),
                None => Truth::Unknown,
            }
        },
        SyntaxKind::TWIG_UNARY_EXPRESSION => {
            match (t.token_of_kind(n, SyntaxKind::TK_NOT), t.first_child(n)) {
                (Some(_), Some(child)) => truth_of(t, child, flag).negated(),
                _ => Truth::Unknown,
            }
        },
        SyntaxKind::TWIG_BINARY_EXPRESSION => {
            match (
                t.child_of_kind(n, SyntaxKind::TWIG_EXPRESSION),
                t.rhs_expression(n),
                t.operator(n),
            ) {
                (Some(lhs), Some(rhs), Some(operator)) => {
                    if t.kind(operator) == SyntaxKind::TK_AND {
                        truth_of(t, lhs, flag).both(truth_of(t, rhs, flag))
                    } else if t.kind(operator) == SyntaxKind::TK_OR {
                        truth_of(t, lhs, flag).either(truth_of(t, rhs, flag))
                    } else {
                        Truth::Unknown
                    }
                },
                _ => Truth::Unknown,
            }
        },
        SyntaxKind::TWIG_FUNCTION_CALL => {
            if t.is_feature_call(n, flag) {
                Truth::True
            } else {
                Truth::Unknown
            }
        },
        SyntaxKind::TWIG_LITERAL_BOOLEAN => {
            if trimmed(t.text(n)) == "true"@ {
                Truth::True
            } else if trimmed(t.text(n)) == "false"@ {
                Truth::False
            } else {
                Truth::Unknown
            }
        },
        _ => Truth::Unknown,
    }
}

/// The first child node.
fn first_child(tree: &SyntaxTree, n: usize) -> (child: Option<usize>)
    requires
        tree@.valid(),
        tree@.is_node(n as int),
    ensures
        int_of(child) == tree@.first_child(n as int),
        child matches Some(c) ==> tree@.is_node(c as int),
{
    let children = tree.children(n);
    proof {
        lemma_operands(tree@, n as int);
    }
    if children.len() > 0 {
        assert(ints(children@)[0] == children[0]);
        Some(children[0])
    } else {
        None
    }
}

/// The right operand of the binary expression at `n`.
fn rhs_expression(tree: &SyntaxTree, n: usize) -> (operand: Option<usize>)
    requires
        tree@.valid(),
        tree@.is_node(n as int),
    ensures
        int_of(operand) == tree@.rhs_expression(n as int),
        operand matches Some(c) ==> tree@.is_node(c as int),
{
    let children = tree.children(n);
    let ghost s = tree@.child_nodes(n as int);
    let ghost p = tree@.has_kind(SyntaxKind::TWIG_EXPRESSION);
    let mut operands: Vec<usize> = Vec::new();
    let mut i: usize = 0;
    proof {
        lemma_child_nodes(tree@, n as int);
        lemma_operands(tree@, n as int);
        lemma_filter_nothing(s, p);
    }
    while i < children.len()
        invariant
            i <= children.len(),
            s == ints(children@),
            p == tree@.has_kind(SyntaxKind::TWIG_EXPRESSION),
            forall|k: int| 0 <= k < s.len() ==> 0 <= #[trigger] s[k] < tree@.len(),
            ints(operands@) == s.take(i as int).filter(p),
        decreases children.len() - i,
    {
        let ghost before = ints(operands@);
        assert(s[i as int] == children[i as int]);
        proof {
            lemma_filter_step(s, i as int, p);
        }
        if tree.kind(children[i]) == SyntaxKind::TWIG_EXPRESSION {
            operands.push(children[i]);
            assert(ints(operands@) == before.push(s[i as int]));
        }
        i += 1;
    }
    assert(s.take(i as int) == s);
    if operands.len() > 1 {
        assert(ints(operands@)[1] == operands[1]);
        Some(operands[1])
    } else {
        None
    }
}

/// The operator of the binary expression at `n`.
fn operator(tree: &SyntaxTree, n: usize) -> (token: Option<usize>)
    requires
        tree@.valid(),
        tree@.is_node(n as int),
    ensures
        int_of(token) == tree@.operator(n as int),
        token matches Some(c) ==> tree@.is_token(c as int),
{
    let tokens = tree.tokens(n);
    let ghost s = tree@.child_tokens(n as int);
    let ghost p = tree@.not_trivia();
    let mut i: usize = 0;
    proof {
        lemma_child_tokens(tree@, n as int);
        lemma_operands(tree@, n as int);
        assert(s.skip(0) == s);
    }
    while i < tokens.len()
        invariant
            i <= tokens.len(),
            s == ints(tokens@),
            s == tree@.child_tokens(n as int),
            p == tree@.not_trivia(),
            forall|k: int| 0 <= k < s.len() ==> #[trigger] tree@.is_token(s[k]),
            first(s.skip(i as int), p) == first(s, p),
        decreases tokens.len() - i,
    {
        proof {
            lemma_first_step(s, i as int, p);
            assert(tree@.is_token(s[i as int]));
        }
        if !tree.kind(tokens[i]).is_trivia() {
            return Some(tokens[i]);
        }
        i += 1;
    }
    None
}

/// Whether the function call at `n` is `feature` with the one argument `flag`.
fn is_feature_call(tree: &SyntaxTree, n: usize, flag: &str) -> (is: bool)
    requires
        tree@.valid(),
        tree@.is_node(n as int),
    ensures
        is == tree@.is_feature_call(n as int, flag@),
{
    let Some(operand) = tree.child_of_kind(n, SyntaxKind::TWIG_OPERAND) else {
        return false;
    };
    let Some(name) = tree.child_of_kind(operand, SyntaxKind::TWIG_LITERAL_NAME) else {
        return false;
    };
    let Some(word) = tree.token_of_kind(name, SyntaxKind::TK_WORD) else {
        return false;
    };
    if !same_text(tree.token_text(word), "feature") {
        return false;
    }
    let Some(arguments) = tree.child_of_kind(n, SyntaxKind::TWIG_ARGUMENTS) else {
        return false;
    };
    let children = tree.children(arguments);
    if children.len() != 1 {
        return false;
    }
    let argument: usize = children[0];
    proof {
        lemma_child_nodes(tree@, arguments as int);
        assert(ints(children@)[0] == argument);
    }
    if tree.kind(argument) != SyntaxKind::TWIG_EXPRESSION {
        return false;
    }
    let Some(value) = tree.child_of_kind(argument, SyntaxKind::TWIG_LITERAL_STRING) else {
        return false;
    };
    let Some(inner) = tree.child_of_kind(value, SyntaxKind::TWIG_LITERAL_STRING_INNER) else {
        return false;
    };
    if tree.children(inner).len() != 0 {
        return false;
    }
    same_text(tree.text(inner).as_str(), flag)
}

/// What is known of the condition at `node` when the feature flag `flag` is enabled.
///
/// Unknown values may be either true or false; only a proven contradiction can establish that a
/// branch is guarded.
pub fn condition_truth(tree: &SyntaxTree, node: usize, flag: &str) -> (truth: Truth)
    requires
        tree@.valid(),
        tree@.is_node(node as int),
    ensures
        truth == truth_of(tree@, node as int, flag@),
    decreases tree@.end(node as int) - node,
{
    proof {
        lemma_operands(tree@, node as int);
    }
    match tree.kind(node) {
        SyntaxKind::TWIG_EXPRESSION | SyntaxKind::TWIG_PARENTHESES_EXPRESSION => {
            match first_child(tree, node) {
                Some(child) => condition_truth(tree, child, flag),
                None => Truth::Unknown,
            }
        },
        SyntaxKind::TWIG_UNARY_EXPRESSION => {
            if tree.token_of_kind(node, SyntaxKind::TK_NOT).is_none() {
                return Truth::Unknown;
            }
            match first_child(tree, node) {
                Some(child) => condition_truth(tree, child, flag).negate(),
                None => Truth::Unknown,
            }
        },
        SyntaxKind::TWIG_BINARY_EXPRESSION => {
            let Some(lhs) = tree.child_of_kind(node, SyntaxKind::TWIG_EXPRESSION) else {
                return Truth::Unknown;
            };
            let Some(rhs) = rhs_expression(tree, node) else {
                return Truth::Unknown;
            };
            let Some(operator) = operator(tree, node) else {
                return Truth::Unknown;
            };
            let lhs = condition_truth(tree, lhs, flag);
            let rhs = condition_truth(tree, rhs, flag);
            match tree.kind(operator) {
                SyntaxKind::TK_AND => lhs.and(rhs),
                SyntaxKind::TK_OR => lhs.or(rhs),
                _ => Truth::Unknown,
            }
        },
        SyntaxKind::TWIG_FUNCTION_CALL => {
            if is_feature_call(tree, node, flag) {
                Truth::True
            } else {
                Truth::Unknown
            }
        },
        SyntaxKind::TWIG_LITERAL_BOOLEAN => {
            let text = tree.text(node);
            let literal = trim(text.as_str());
            if same_text(literal, "true") {
                Truth::True
            } else if same_text(literal, "false") {
                Truth::False
            } else {
                Truth::Unknown
            }
        },
        _ => Truth::Unknown,
    }
}

/// What is known of the condition under which the header at `h` opens its branch.
pub open spec fn header_truth(t: Tree, h: int, flag: Seq<char>) -> Truth {
    if is_condition_header(t.kind(h)) {
        match t.child_of_kind(h, SyntaxKind::TWIG_EXPRESSION) {
            Some(expression) => truth_of(t, expression, flag),
            None => Truth::Unknown,
        }
    } else {
        Truth::True
    }
}

/// What is known of the condition of the body at `b` of the `if` at `p`.
pub open spec fn body_truth(t: Tree, p: int, b: int, flag: Seq<char>) -> Truth {
    match t.header_of(p, b) {
        Some(h) => header_truth(t, h, flag),
        None => Truth::Unknown,
    }
}

/// Whether `b` is a body of the `if` at `p`.
pub open spec fn is_body_of(t: Tree, p: int, b: int) -> bool {
    t.is_node(b) && t.kind(b) == SyntaxKind::BODY && t.parent(b) == Some(p)
}

/// Whether the body at `b` of the `if` at `p` is known not to run when `flag` is enabled: its own
/// condition is false, or that of an earlier body is true.
pub open spec fn cannot_run(t: Tree, p: int, b: int, flag: Seq<char>) -> bool {
    body_truth(t, p, b, flag) == Truth::False || exists|c: int|
        #[trigger] is_body_of(t, p, c) && c < b && body_truth(t, p, c, flag) == Truth::True
}

/// Whether the node at `b` is the body of an `if` that is known not to run when `flag` is
/// enabled. If the node is taken for an earlier body, that one decides.
pub open spec fn excluded(t: Tree, b: int, flag: Seq<char>) -> bool {
    &&& t.parent(b) matches Some(p)
    &&& t.kind(p) == SyntaxKind::TWIG_IF
    &&& t.counted_body(p, b) matches Some(c)
    &&& cannot_run(t, p, c, flag)
}

/// Whether the node at `body` is the body of an `if` that is known not to run when `flag` is
/// enabled.
pub fn excludes_enabled_flag(tree: &SyntaxTree, body: usize, flag: &str) -> (excludes: bool)
    requires
        tree@.valid(),
        tree@.is_node(body as int),
    ensures
        excludes == excluded(tree@, body as int, flag@),
{
    let ghost t = tree@;
    let ghost b = body as int;
    let Some(parent) = tree.parent(body) else {
        return false;
    };
    proof {
        assert(t.is_node(parent as int)) by {
            assert(b > 0);
        }
    }
    if tree.kind(parent) != SyntaxKind::TWIG_IF {
        return false;
    }
    let ghost p = parent as int;
    let ghost s = t.child_nodes(p);
    let ghost test = t.header_test();
    let ghost same = t.same_body(b);
    let children = tree.children(parent);
    proof {
        assert(s.skip(0) == s);
        lemma_child_nodes(t, p);
        lemma_filter_nothing(s, test);
    }
    let mut can_reach_next_branch = true;
    let mut condition = Truth::Unknown;
    let mut i: usize = 0;
    while i < children.len()
        invariant
            i <= children.len(),
            t == tree@,
            t.valid(),
            t.is_node(p),
            t.kind(p) == SyntaxKind::TWIG_IF,
            b == body,
            t.is_node(b),
            t.parent(b) == Some(p),
            s == ints(children@),
            s == t.child_nodes(p),
            test == t.header_test(),
            condition == (if s.take(i as int).filter(test).len() > 0 {
                header_truth(t, s.take(i as int).filter(test).last(), flag@)
            } else {
                Truth::Unknown
            }),
            can_reach_next_branch == (forall|k: int|
                0 <= k < i && is_body_of(t, p, #[trigger] s[k]) ==> body_truth(t, p, s[k], flag@)
                    != Truth::True),
            same == t.same_body(b),
            first(s.skip(i as int), same) == first(s, same),
        decreases children.len() - i,
    {
        let child: usize = children[i];
        proof {
            lemma_child_nodes(t, p);
            lemma_filter_step(s, i as int, test);
            lemma_first_step(s, i as int, same);
            assert(s[i as int] == child);
            assert forall|k: int| 0 <= k < s.len() implies (#[trigger] s[k] < child <==> k < i) by {
                if k < i {
                    assert(s[k] < s[i as int]);
                } else if k > i {
                    assert(s[i as int] < s[k]);
                }
            }
            lemma_filter_below(s, i as int, child as int, test);
            assert(t.children_before(p, child as int, test) == s.take(i as int).filter(test));
        }
        match tree.kind(child) {
            SyntaxKind::TWIG_IF_BLOCK | SyntaxKind::TWIG_ELSE_IF_BLOCK => {
                condition =
                match tree.child_of_kind(child, SyntaxKind::TWIG_EXPRESSION) {
                    Some(expression) => condition_truth(tree, expression, flag),
                    None => Truth::Unknown,
                };
            },
            SyntaxKind::TWIG_ELSE_BLOCK => {
                condition = Truth::True;
            },
            SyntaxKind::BODY => {
                assert(body_truth(t, p, child as int, flag@) == condition);
                if tree.same_node(child, body) {
                    proof {
                        let b = child as int;
                        if !can_reach_next_branch {
                            let k = choose|k: int|
                                0 <= k < i && is_body_of(t, p, #[trigger] s[k]) && body_truth(
                                    t,
                                    p,
                                    s[k],
                                    flag@,
                                ) == Truth::True;
                            assert(is_body_of(t, p, s[k]) && s[k] < b);
                        }
                        assert forall|c: int| #[trigger]
                            is_body_of(t, p, c) && c < b && body_truth(t, p, c, flag@)
                                == Truth::True implies !can_reach_next_branch by {
                            assert(s.contains(c));
                            let k = choose|k: int| 0 <= k < s.len() && s[k] == c;
                            assert(is_body_of(t, p, s[k]));
                        }
                    }
                    return !can_reach_next_branch || condition == Truth::False;
                }
                if condition == Truth::True {
                    can_reach_next_branch = false;
                    assert(is_body_of(t, p, s[i as int]));
                }
            },
            _ => {},
        }
        i += 1;
    }
    assert(t.counted_body(p, b) is None);
    false
}

/// The deprecation tag that a comment names: what follows `tag:` in the word after the first
/// `@deprecated`.
pub open spec fn annotated_tag(comment: Seq<char>) -> Option<Seq<char>> {
    let ws = words(comment);
    match ws.index_of_first("@deprecated"@) {
        Some(i) => {
            if i + 1 < ws.len() {
                after_prefix(ws[i + 1], "tag:"@)
            } else {
                None
            }
        },
        None => None,
    }
}

/// The deprecation tag that the comment `comment` names.
pub fn deprecation_tag(comment: &str) -> (tag: Option<String>)
    ensures
        match tag {
            Some(name) => annotated_tag(comment@) == Some(name@),
            None => annotated_tag(comment@) is None,
        },
{
    let parts = split_whitespace(comment);
    let ghost ws = words(comment@);
    let mut i: usize = 0;
    while i < parts.len()
        invariant
            i <= parts.len(),
            ws == words(comment@),
            ws == views(parts@),
            forall|k: int| 0 <= k < i ==> #[trigger] ws[k] != "@deprecated"@,
        decreases parts.len() - i,
    {
        assert(ws[i as int] == parts[i as int]@);
        if same_text(parts[i].as_str(), "@deprecated") {
            proof {
                ws.index_of_first_ensures("@deprecated"@);
                assert(ws.contains("@deprecated"@));
                assert(ws.index_of_first("@deprecated"@) == Some(i as int));
            }
            if i + 1 < parts.len() {
                assert(ws[i + 1] == parts[i + 1]@);
                return strip_prefix(parts[i + 1].as_str(), "tag:");
            }
            return None;
        }
        i += 1;
    }
    proof {
        ws.index_of_first_ensures("@deprecated"@);
        assert(!ws.contains("@deprecated"@));
    }
    None
}

/// Whether the node at `n` is in a branch that is known not to run when `flag` is enabled.
pub open spec fn guarded(t: Tree, n: int, flag: Seq<char>) -> bool {
    exists|b: int| #[trigger]
        t.encloses(b, n) && t.kind(b) == SyntaxKind::BODY && excluded(t, b, flag)
}

/// The feature flag that the node at `n` should be guarded by and is not, if there is one.
pub open spec fn missing_guard(
    t: Tree,
    n: int,
    flags: Map<Seq<char>, Seq<char>>,
) -> Option<Seq<char>> {
    if t.kind(n) == SyntaxKind::TWIG_COMMENT {
        match annotated_tag(t.text(n)) {
            Some(tag) => {
                if flags.contains_key(tag) && !guarded(t, n, flags[tag]) {
                    Some(flags[tag])
                } else {
                    None
                }
            },
            None => None,
        }
    } else {
        None
    }
}

/// The finding for an annotation that is not guarded by `flag`.
pub open spec fn unguarded_finding(range: TextRange, flag: Seq<char>) -> Finding {
    Finding {
        rule_name: "twig-deprecated-feature-guard"@,
        severity: Severity::Error,
        message: "deprecated Twig code is not guarded by its feature flag"@,
        primary: Some(
            Note {
                range,
                message: "place this annotation in a branch where feature('"@ + flag
                    + "') is false"@,
            },
        ),
        secondary: Seq::empty(),
    }
}

/// Whether the node at `node` is in a branch that is known not to run when `flag` is enabled.
pub fn is_guarded(tree: &SyntaxTree, node: usize, flag: &str) -> (is: bool)
    requires
        tree@.valid(),
        tree@.is_node(node as int),
    ensures
        is == guarded(tree@, node as int, flag@),
{
    let ghost t = tree@;
    let ghost n = node as int;
    let mut ancestor: usize = node;
    loop
        invariant
            t == tree@,
            t.valid(),
            n == node,
            t.is_node(n),
            t.encloses(ancestor as int, n),
            forall|b: int| #[trigger]
                t.encloses(b, n) && t.kind(b) == SyntaxKind::BODY && excluded(t, b, flag@)
                    ==> t.encloses(b, ancestor as int),
        decreases ancestor,
    {
        if tree.kind(ancestor) == SyntaxKind::BODY && excludes_enabled_flag(tree, ancestor, flag) {
            return true;
        }
        proof {
            assert forall|b: int| #[trigger]
                t.encloses(b, n) && t.kind(b) == SyntaxKind::BODY && excluded(
                    t,
                    b,
                    flag@,
                ) implies t.parent(ancestor as int) is Some && t.encloses(
                b,
                t.parent(ancestor as int)->0,
            ) by {
                lemma_encloses_parent(t, b, ancestor as int);
            }
        }
        match tree.parent(ancestor) {
            Some(parent) => {
                proof {
                    assert(ancestor > 0);
                    assert(t.is_node(parent as int));
                    lemma_encloses_parent(t, parent as int, ancestor as int);
                    assert(t.end(ancestor as int) <= t.end(parent as int));
                }
                ancestor = parent;
            },
            None => {
                return false;
            },
        }
    }
}

/// Reports annotations of deprecated code outside a branch where the feature flag is disabled.
pub struct RuleTwigDeprecatedFeatureGuard;

impl RuleTwigDeprecatedFeatureGuard {
    /// The name of the rule.
    pub fn name(&self) -> (name: &'static str)
        ensures
            name@ == "twig-deprecated-feature-guard"@,
    {
        "twig-deprecated-feature-guard"
    }

    /// Checks the node at `node`.
    pub fn check_node(&self, tree: &SyntaxTree, node: usize, ctx: &RuleRunContext) -> (results:
        Option<Vec<CheckResult>>)
        requires
            tree@.valid(),
            tree@.is_node(node as int),
        ensures
            match missing_guard(
                tree@,
                node as int,
                ctx.settings().twig.deprecated_feature_flags@,
            ) {
                Some(flag) => results matches Some(r) && findings(r@) == seq![
                    unguarded_finding(tree@.range(node as int), flag),
                ],
                None => results is None,
            },
    {
        if tree.kind(node) != SyntaxKind::TWIG_COMMENT {
            return None;
        }
        let text = tree.text(node);
        let Some(tag) = deprecation_tag(text.as_str()) else {
            return None;
        };
        let Some(flag) = ctx.config().twig.deprecated_feature_flags.get(tag.as_str()) else {
            return None;
        };
        if is_guarded(tree, node, flag.as_str()) {
            return None;
        }
        let result = CheckResult::new(
            self.name(),
            Severity::Error,
            "deprecated Twig code is not guarded by its feature flag",
        ).primary_note(
            tree.text_range(node),
            concat3(
                "place this annotation in a branch where feature('",
                flag.as_str(),
                "') is false",
            ),
        );
        let mut results: Vec<CheckResult> = Vec::new();
        results.push(result);
        assert(findings(results@) == seq![
            unguarded_finding(tree@.range(node as int), flag@),
        ]);
        Some(results)
    }
}

// ---- What the checks mean for a template that runs ----

/// The value of the condition at `n` when `flag` is enabled and every expression of which nothing
/// is known has the value that `others` gives it.
pub open spec fn value_of(
    t: Tree,
    n: int,
    flag: Seq<char>,
    others: spec_fn(int) -> bool,
) -> bool
    decreases t.end(n) - n,
    when t.valid() && t.is_node(n)
{
    proof {
        lemma_operands(t, n);
    }
    match t.kind(n) {
        SyntaxKind::TWIG_EXPRESSION | SyntaxKind::TWIG_PARENTHESES_EXPRESSION => {
            match t.first_child(n) {
                Some(child) => value_of(t, child, flag, others),
                None => others(n),
            }
        },
        SyntaxKind::TWIG_UNARY_EXPRESSION => {
            match (t.token_of_kind(n, SyntaxKind::TK_NOT), t.first_child(n)) {
                (Some(_), Some(child)) => !value_of(t, child, flag, others),
                _ => others(n),
            }
        },
        SyntaxKind::TWIG_BINARY_EXPRESSION => {
            match (
                t.child_of_kind(n, SyntaxKind::TWIG_EXPRESSION),
                t.rhs_expression(n),
                t.operator(n),
            ) {
                (Some(lhs), Some(rhs), Some(operator)) => {
                    if t.kind(operator) == SyntaxKind::TK_AND {
                        value_of(t, lhs, flag, others) && value_of(t, rhs, flag, others)
                    } else if t.kind(operator) == SyntaxKind::TK_OR {
                        value_of(t, lhs, flag, others) || value_of(t, rhs, flag, others)
                    } else {
                        others(n)
                    }
                },
                _ => others(n),
            }
        },
        SyntaxKind::TWIG_FUNCTION_CALL => t.is_feature_call(n, flag) || others(n),
        SyntaxKind::TWIG_LITERAL_BOOLEAN => {
            if trimmed(t.text(n)) == "true"@ {
                true
            } else if trimmed(t.text(n)) == "false"@ {
                false
            } else {
                others(n)
            }
        },
        _ => others(n),
    }
}

/// Whether the condition of the body at `b` of the `if` at `p` holds.
pub open spec fn body_holds(
    t: Tree,
    p: int,
    b: int,
    flag: Seq<char>,
    others: spec_fn(int) -> bool,
) -> bool {
    match t.header_of(p, b) {
        Some(h) => {
            if is_condition_header(t.kind(h)) {
                match t.child_of_kind(h, SyntaxKind::TWIG_EXPRESSION) {
                    Some(expression) => value_of(t, expression, flag, others),
                    None => others(h),
                }
            } else {
                true
            }
        },
        None => others(b),
    }
}

/// Whether the body at `b` of the `if` at `p` is the one that runs: its condition holds and that
/// of no earlier body does.
pub open spec fn body_runs(
    t: Tree,
    p: int,
    b: int,
    flag: Seq<char>,
    others: spec_fn(int) -> bool,
) -> bool {
    &&& body_holds(t, p, b, flag, others)
    &&& forall|c: int| #[trigger]
        is_body_of(t, p, c) && c < b ==> !body_holds(t, p, c, flag, others)
}

/// Whether every branch that the node at `n` is in runs.
pub open spec fn is_reached(
    t: Tree,
    n: int,
    flag: Seq<char>,
    others: spec_fn(int) -> bool,
) -> bool {
    forall|p: int, b: int| #[trigger]
        is_body_of(t, p, b) && t.kind(p) == SyntaxKind::TWIG_IF && t.encloses(b, n) ==> body_runs(
            t,
            p,
            b,
            flag,
            others,
        )
}

/// What is known of a condition is true of it, whatever value the unknown parts have.
pub proof fn condition_truth_is_sound(
    t: Tree,
    n: int,
    flag: Seq<char>,
    others: spec_fn(int) -> bool,
)
    requires
        t.valid(),
        t.is_node(n),
    ensures
        truth_of(t, n, flag).allows(value_of(t, n, flag, others)),
    decreases t.end(n) - n,
{
    lemma_operands(t, n);
    match t.kind(n) {
        SyntaxKind::TWIG_EXPRESSION
        | SyntaxKind::TWIG_PARENTHESES_EXPRESSION
        | SyntaxKind::TWIG_UNARY_EXPRESSION => {
            if let Some(child) = t.first_child(n) {
                condition_truth_is_sound(t, child, flag, others);
            }
        },
        SyntaxKind::TWIG_BINARY_EXPRESSION => {
            if let Some(lhs) = t.child_of_kind(n, SyntaxKind::TWIG_EXPRESSION) {
                condition_truth_is_sound(t, lhs, flag, others);
            }
            if let Some(rhs) = t.rhs_expression(n) {
                condition_truth_is_sound(t, rhs, flag, others);
            }
        },
        _ => {},
    }
}

proof fn lemma_body_truth_is_sound(
    t: Tree,
    p: int,
    b: int,
    flag: Seq<char>,
    others: spec_fn(int) -> bool,
)
    requires
        t.valid(),
        t.is_node(p),
    ensures
        body_truth(t, p, b, flag).allows(body_holds(t, p, b, flag, others)),
{
    if let Some(h) = t.header_of(p, b) {
        lemma_child_nodes(t, p);
        let test = t.header_test();
        lemma_filter_sorted(t.child_nodes(p), |c: int| c < b && test(c));
        let headers = t.children_before(p, b, test);
        assert(headers[headers.len() - 1] == h);
        assert(t.child_nodes(p).contains(h));
        lemma_child_of_kind(t, h, SyntaxKind::TWIG_EXPRESSION);
        if let Some(expression) = t.child_of_kind(h, SyntaxKind::TWIG_EXPRESSION) {
            condition_truth_is_sound(t, expression, flag, others);
        }
    }
}

/// A body that cannot run when the flag is enabled does not run, whatever the value of everything
/// else.
pub proof fn body_that_cannot_run_does_not_run(
    t: Tree,
    p: int,
    b: int,
    flag: Seq<char>,
    others: spec_fn(int) -> bool,
)
    requires
        t.valid(),
        t.is_node(p),
        cannot_run(t, p, b, flag),
    ensures
        !body_runs(t, p, b, flag, others),
{
    lemma_body_truth_is_sound(t, p, b, flag, others);
    if body_truth(t, p, b, flag) != Truth::False {
        let c = choose|c: int| #[trigger]
            is_body_of(t, p, c) && c < b && body_truth(t, p, c, flag) == Truth::True;
        lemma_body_truth_is_sound(t, p, c, flag, others);
    }
}

/// If a body is found to be excluded, the body that it is taken for does not run when the flag is
/// enabled, whatever the value of everything else. A body with some text is taken for itself.
pub proof fn excluded_body_does_not_run(
    t: Tree,
    b: int,
    flag: Seq<char>,
    others: spec_fn(int) -> bool,
)
    requires
        t.valid(),
        t.is_node(b),
        excluded(t, b, flag),
    ensures
        ({
            let p = t.parent(b)->0;
            &&& t.counted_body(p, b) matches Some(c) && !body_runs(t, p, c, flag, others)
            &&& t.range(b).start < t.range(b).end ==> t.counted_body(p, b) == Some(b)
        }),
{
    let p = t.parent(b)->0;
    assert(b > 0);
    lemma_counted_body(t, p, b);
    body_that_cannot_run_does_not_run(t, p, t.counted_body(p, b)->0, flag, others);
    if t.range(b).start < t.range(b).end {
        body_with_text_counts_itself(t, p, b);
    }
}

/// Whether an excluded body around the element at `n` cannot run itself, rather than only the body
/// that it is taken for.
pub open spec fn truly_guarded(t: Tree, n: int, flag: Seq<char>) -> bool {
    exists|b: int| #[trigger]
        t.encloses(b, n) && t.kind(b) == SyntaxKind::BODY && excluded(t, b, flag) && cannot_run(
            t,
            t.parent(b)->0,
            b,
            flag,
        )
}

/// What guards code with some text cannot run itself.
pub proof fn guard_of_text_is_true(t: Tree, n: int, flag: Seq<char>)
    requires
        t.valid(),
        guarded(t, n, flag),
        t.range(n).start < t.range(n).end,
    ensures
        truly_guarded(t, n, flag),
{
    let b = choose|b: int| #[trigger]
        t.encloses(b, n) && t.kind(b) == SyntaxKind::BODY && excluded(t, b, flag);
    let p = t.parent(b)->0;
    assert(b > 0);
    lemma_encloser_has_text(t, b, n);
    body_with_text_counts_itself(t, p, b);
}

/// Guarded code is not reached when the flag is enabled, whatever the value of everything else.
pub proof fn guarded_code_is_not_reached(
    t: Tree,
    n: int,
    flag: Seq<char>,
    others: spec_fn(int) -> bool,
)
    requires
        t.valid(),
        truly_guarded(t, n, flag) || (guarded(t, n, flag) && t.range(n).start < t.range(n).end),
    ensures
        !is_reached(t, n, flag, others),
{
    if !truly_guarded(t, n, flag) {
        guard_of_text_is_true(t, n, flag);
    }
    let b = choose|b: int| #[trigger]
        t.encloses(b, n) && t.kind(b) == SyntaxKind::BODY && excluded(t, b, flag) && cannot_run(
            t,
            t.parent(b)->0,
            b,
            flag,
        );
    let p = t.parent(b)->0;
    assert(b > 0);
    assert(is_body_of(t, p, b));
    body_that_cannot_run_does_not_run(t, p, b, flag, others);
}

/// An annotation with a configured tag that the rule accepts is not reached when the flag of the
/// tag is enabled, whatever the value of everything else.
pub proof fn accepted_annotation_is_not_reached(
    t: Tree,
    n: int,
    flags: Map<Seq<char>, Seq<char>>,
    others: spec_fn(int) -> bool,
)
    requires
        t.valid(),
        t.is_node(n),
        t.kind(n) == SyntaxKind::TWIG_COMMENT,
        annotated_tag(t.text(n)) matches Some(tag) && flags.contains_key(tag),
        missing_guard(t, n, flags) is None,
    ensures
        !is_reached(t, n, flags[annotated_tag(t.text(n))->0], others),
{
    if t.text(n).len() == 0 {
        assert(words(t.text(n)).len() == 0);
        words(t.text(n)).index_of_first_ensures("@deprecated"@);
    }
    lemma_byte_len_positive(t.text(n));
    range_covers_text(t, n);
    guarded_code_is_not_reached(t, n, flags[annotated_tag(t.text(n))->0], others);
}

/// What guards a node guards everything below it.
pub proof fn guard_covers_what_is_below(t: Tree, n: int, m: int, flag: Seq<char>)
    requires
        t.valid(),
        guarded(t, n, flag),
        t.encloses(n, m),
    ensures
        guarded(t, m, flag),
{
    let b = choose|b: int| #[trigger]
        t.encloses(b, n) && t.kind(b) == SyntaxKind::BODY && excluded(t, b, flag);
    assert(t.end(n) <= t.end(b));
    assert(t.encloses(b, m));
}

/// Once the condition of a body of an `if` is known to hold when the flag is enabled, all bodies
/// are excluded that are taken for later ones.
pub proof fn bodies_after_a_true_one_are_excluded(
    t: Tree,
    p: int,
    c: int,
    b: int,
    flag: Seq<char>,
)
    requires
        t.valid(),
        t.is_node(p),
        t.kind(p) == SyntaxKind::TWIG_IF,
        is_body_of(t, p, c),
        is_body_of(t, p, b),
        t.counted_body(p, b) matches Some(x) && c < x,
        body_truth(t, p, c, flag) == Truth::True,
    ensures
        excluded(t, b, flag),
{
}

/// Negating twice changes nothing, and negation exchanges conjunction and disjunction.
pub proof fn negation_laws(a: Truth, b: Truth)
    ensures
        a.negated().negated() == a,
        a.both(b).negated() == a.negated().either(b.negated()),
        a.either(b).negated() == a.negated().both(b.negated()),
{
}

/// Conjunction and disjunction do not depend on the order of their operands.
pub proof fn operands_commute(a: Truth, b: Truth)
    ensures
        a.both(b) == b.both(a),
        a.either(b) == b.either(a),
{
}

} // verus!
