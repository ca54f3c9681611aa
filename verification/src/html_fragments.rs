//! Opening and closing HTML tags that stand apart in a template must still match each other.
//!
//! A template can open an element in one Twig block and close it in another. What is left of such
//! an element are fragments: an opening tag without its closing tag, or the other way round. They
//! match if they have the same name under the same Twig conditions.
use vstd::prelude::*;
use crate::branches::{find_counted_body, lemma_filter_below};
use crate::kind::SyntaxKind;
use crate::nodes::{
    first, int_of, ints, keys_tell_texts_apart, lemma_child_nodes, lemma_child_tokens,
    lemma_filter_nothing, lemma_filter_sorted, lemma_filter_step, lemma_first_step,
};
use crate::text::{all_lack, concat2, concat3, nothing_and_empty, starts_with};
use crate::tree::{SyntaxTree, TextRange, Tree};

verus! {

/// What the key of a tag begins with whose name is a Twig expression.
pub const DYNAMIC_HTML_TAG_PREFIX: &'static str = "\0twig:";

/// The Twig code around a place of the template.
pub struct Context {
    /// The conditions of the `if` branches, each with whether it holds.
    pub conditions: Vec<(String, bool)>,
    /// The other Twig elements with content.
    pub scopes: Vec<(SyntaxKind, TextRange)>,
}

/// A tag that stands apart from its counterpart.
pub struct Fragment {
    /// The name as it is written.
    pub name: String,
    /// The name up to its layout.
    pub key: String,
    pub context: Context,
    pub range: TextRange,
    pub opening: bool,
}

/// A place where the template does not follow the grammar.
#[derive(Debug)]
pub struct ParseError {
    pub range: TextRange,
    pub found: Option<SyntaxKind>,
    pub expected: String,
    pub secondary: Option<(TextRange, String)>,
    pub message: Option<String>,
}

/// A context with its texts as characters.
pub struct ContextView {
    pub conditions: Seq<(Seq<char>, bool)>,
    pub scopes: Seq<(SyntaxKind, TextRange)>,
}

/// A fragment with its texts as characters.
pub struct FragmentView {
    pub name: Seq<char>,
    pub key: Seq<char>,
    pub context: ContextView,
    pub range: TextRange,
    pub opening: bool,
}

/// An error with its texts as characters.
pub struct ErrorView {
    pub range: TextRange,
    pub found: Option<SyntaxKind>,
    pub expected: Seq<char>,
    pub secondary: Option<(TextRange, Seq<char>)>,
    pub message: Option<Seq<char>>,
}

/// Conditions with their texts as characters.
pub open spec fn condition_views(conditions: Seq<(String, bool)>) -> Seq<(Seq<char>, bool)> {
    Seq::new(conditions.len(), |i: int| (conditions[i].0@, conditions[i].1))
}

impl View for Context {
    type V = ContextView;

    open spec fn view(&self) -> ContextView {
        ContextView { conditions: condition_views(self.conditions@), scopes: self.scopes@ }
    }
}

impl View for Fragment {
    type V = FragmentView;

    open spec fn view(&self) -> FragmentView {
        FragmentView {
            name: self.name@,
            key: self.key@,
            context: self.context@,
            range: self.range,
            opening: self.opening,
        }
    }
}

impl View for ParseError {
    type V = ErrorView;

    open spec fn view(&self) -> ErrorView {
        ErrorView {
            range: self.range,
            found: self.found,
            expected: self.expected@,
            secondary: match self.secondary {
                Some(s) => Some((s.0, s.1@)),
                None => None,
            },
            message: match self.message {
                Some(m) => Some(m@),
                None => None,
            },
        }
    }
}

/// Fragments with their texts as characters.
pub open spec fn fragment_views(fragments: Seq<Fragment>) -> Seq<FragmentView> {
    Seq::new(fragments.len(), |i: int| fragments[i]@)
}

/// Errors with their texts as characters.
pub open spec fn error_views(errors: Seq<ParseError>) -> Seq<ErrorView> {
    Seq::new(errors.len(), |i: int| errors[i]@)
}

// ---- The name of a tag ----

/// The test for tokens that can be the name of a tag.
pub open spec fn name_test(t: Tree) -> spec_fn(int) -> bool {
    |c: int|
        t.kind(c) == SyntaxKind::TK_WORD || t.kind(c) == SyntaxKind::TK_TWIG_COMPONENT_NAME
}

/// The name of the tag at `n` as it is written, its key and its range. The name is a word, or the
/// name of a component, or a Twig variable, whose key is its expression up to layout.
pub open spec fn name_of_tag(t: Tree, n: int) -> Option<(Seq<char>, Seq<char>, TextRange)> {
    match first(t.child_tokens(n), name_test(t)) {
        Some(word) => Some((t.token_text(word), t.token_text(word), t.range(word))),
        None => match t.child_of_kind(n, SyntaxKind::TWIG_VAR) {
            Some(var) => match t.child_of_kind(var, SyntaxKind::TWIG_EXPRESSION) {
                Some(expression) => Some(
                    (
                        t.text(var),
                        DYNAMIC_HTML_TAG_PREFIX@ + t.key_text(expression) + "\0"@,
                        t.range(var),
                    ),
                ),
                None => None,
            },
            None => None,
        },
    }
}

/// The keys of two tags whose names are the Twig expressions at `e` and `f` are the same exactly if
/// the tokens of the expressions have the same texts up to trivia, as long as no token contains
/// NUL. There is one exception: no token at all is not told from a single token without text.
pub proof fn dynamic_keys_tell_expressions_apart(
    t: Tree,
    n: int,
    e: int,
    u: Tree,
    m: int,
    f: int,
)
    requires
        first(t.child_tokens(n), name_test(t)) is None,
        t.child_of_kind(n, SyntaxKind::TWIG_VAR) matches Some(var) && t.child_of_kind(
            var,
            SyntaxKind::TWIG_EXPRESSION,
        ) == Some(e),
        first(u.child_tokens(m), name_test(u)) is None,
        u.child_of_kind(m, SyntaxKind::TWIG_VAR) matches Some(var) && u.child_of_kind(
            var,
            SyntaxKind::TWIG_EXPRESSION,
        ) == Some(f),
        all_lack(t.words_between(e, t.end(e)), '\0'),
        all_lack(u.words_between(f, u.end(f)), '\0'),
        !nothing_and_empty(t.words_between(e, t.end(e)), u.words_between(f, u.end(f))),
        !nothing_and_empty(u.words_between(f, u.end(f)), t.words_between(e, t.end(e))),
    ensures
        name_of_tag(t, n) is Some,
        name_of_tag(u, m) is Some,
        (name_of_tag(t, n)->0).1 == (name_of_tag(u, m)->0).1 <==> t.words_between(e, t.end(e))
            == u.words_between(f, u.end(f)),
{
    let prefix = DYNAMIC_HTML_TAG_PREFIX@;
    let a = t.key_text(e);
    let b = u.key_text(f);
    let k = (name_of_tag(t, n)->0).1;
    let l = (name_of_tag(u, m)->0).1;
    keys_tell_texts_apart(t, e, u, f);
    assert(a == k.subrange(prefix.len() as int, k.len() - "\0"@.len()));
    assert(b == l.subrange(prefix.len() as int, l.len() - "\0"@.len()));
}

/// A name, its key and its range with the texts as characters.
pub open spec fn name_view(name: Option<(String, String, TextRange)>) -> Option<
    (Seq<char>, Seq<char>, TextRange),
> {
    match name {
        Some(n) => Some((n.0@, n.1@, n.2)),
        None => None,
    }
}

/// The name of the tag at `node`, its key and its range.
pub fn tag_name(tree: &SyntaxTree, node: usize) -> (name: Option<(String, String, TextRange)>)
    requires
        tree@.valid(),
        tree@.is_node(node as int),
    ensures
        name_view(name) == name_of_tag(tree@, node as int),
{
    let tokens = tree.tokens(node);
    let ghost s = tree@.child_tokens(node as int);
    let ghost p = name_test(tree@);
    let mut i: usize = 0;
    proof {
        lemma_child_tokens(tree@, node as int);
        assert(s.skip(0) == s);
    }
    while i < tokens.len()
        invariant
            i <= tokens.len(),
            s == ints(tokens@),
            s == tree@.child_tokens(node as int),
            p == name_test(tree@),
            forall|k: int| 0 <= k < s.len() ==> tree@.is_token(#[trigger] s[k]),
            first(s.skip(i as int), p) == first(s, p),
        decreases tokens.len() - i,
    {
        let token: usize = tokens[i];
        proof {
            lemma_first_step(s, i as int, p);
            assert(tree@.is_token(s[i as int]));
        }
        let kind = tree.kind(token);
        if kind == SyntaxKind::TK_WORD || kind == SyntaxKind::TK_TWIG_COMPONENT_NAME {
            return Some(
                (
                    tree.token_text(token).to_owned(),
                    tree.token_text(token).to_owned(),
                    tree.text_range(token),
                ),
            );
        }
        i += 1;
    }
    let Some(twig_var) = tree.child_of_kind(node, SyntaxKind::TWIG_VAR) else {
        return None;
    };
    let Some(expression) = tree.child_of_kind(twig_var, SyntaxKind::TWIG_EXPRESSION) else {
        return None;
    };
    let key = tree.key_text(expression);
    Some(
        (
            tree.text(twig_var),
            concat3(DYNAMIC_HTML_TAG_PREFIX, key.as_str(), "\0"),
            tree.text_range(twig_var),
        ),
    )
}

// ---- The Twig code around a node ----

/// Whether elements of this kind are Twig elements with content, other than `if`.
pub open spec fn is_scope_kind(kind: SyntaxKind) -> bool {
    ||| kind == SyntaxKind::TWIG_BLOCK
    ||| kind == SyntaxKind::TWIG_SET
    ||| kind == SyntaxKind::TWIG_FOR
    ||| kind == SyntaxKind::TWIG_APPLY
    ||| kind == SyntaxKind::TWIG_AUTOESCAPE
    ||| kind == SyntaxKind::TWIG_EMBED
    ||| kind == SyntaxKind::TWIG_SANDBOX
    ||| kind == SyntaxKind::TWIG_VERBATIM
    ||| kind == SyntaxKind::TWIG_MACRO
    ||| kind == SyntaxKind::TWIG_WITH
    ||| kind == SyntaxKind::TWIG_CACHE
    ||| kind == SyntaxKind::TWIG_COMPONENT
    ||| kind == SyntaxKind::TWIG_TRANS
    ||| kind == SyntaxKind::SHOPWARE_SILENT_FEATURE_CALL
}

/// Whether elements of this kind are Twig elements with content, other than `if`.
pub fn is_twig_scope(kind: SyntaxKind) -> (scope: bool)
    ensures
        scope == is_scope_kind(kind),
{
    matches!(
        kind,
        SyntaxKind::TWIG_BLOCK
            | SyntaxKind::TWIG_SET
            | SyntaxKind::TWIG_FOR
            | SyntaxKind::TWIG_APPLY
            | SyntaxKind::TWIG_AUTOESCAPE
            | SyntaxKind::TWIG_EMBED
            | SyntaxKind::TWIG_SANDBOX
            | SyntaxKind::TWIG_VERBATIM
            | SyntaxKind::TWIG_MACRO
            | SyntaxKind::TWIG_WITH
            | SyntaxKind::TWIG_CACHE
            | SyntaxKind::TWIG_COMPONENT
            | SyntaxKind::TWIG_TRANS
            | SyntaxKind::SHOPWARE_SILENT_FEATURE_CALL
    )
}

/// The child of the node at `a` that the node at `n` is or is below. On the way up from a node no
/// two nodes are taken for the same, so it does not matter here which nodes are.
pub open spec fn child_towards(t: Tree, a: int, n: int) -> Option<int>
    decreases n,
{
    match t.parent(n) {
        Some(p) => {
            if p == a {
                Some(n)
            } else if 0 <= p < n {
                child_towards(t, a, p)
            } else {
                None
            }
        },
        None => None,
    }
}

/// Where the headers end that matter for the node at `n` in the `if` at `a`: at the first body that
/// the body around it is taken for, or else at the end.
pub open spec fn header_limit(t: Tree, a: int, n: int) -> int {
    match child_towards(t, a, n) {
        Some(b) => match t.counted_body(a, b) {
            Some(c) => c,
            None => t.end(a),
        },
        None => t.end(a),
    }
}

/// The condition that the header at `h` states, up to layout.
pub open spec fn condition_text(t: Tree, h: int) -> Seq<char> {
    match t.child_of_kind(h, SyntaxKind::TWIG_EXPRESSION) {
        Some(expression) => t.key_text(expression),
        None => Seq::empty(),
    }
}

/// The conditions that the headers with a condition at `heads` state. Of all headers at
/// `headers`, only the last one opens its branch, so its condition alone holds.
pub open spec fn stated_conditions(t: Tree, heads: Seq<int>, headers: Seq<int>) -> Seq<
    (Seq<char>, bool),
> {
    Seq::new(
        heads.len(),
        |j: int| (condition_text(t, heads[j]), headers.len() > 0 && heads[j] == headers.last()),
    )
}

/// The conditions under which the node at `n` below the `if` at `a` is rendered.
pub open spec fn branch_conditions(t: Tree, a: int, n: int) -> Seq<(Seq<char>, bool)> {
    let limit = header_limit(t, a, n);
    stated_conditions(
        t,
        t.children_before(a, limit, t.condition_header_test()),
        t.children_before(a, limit, t.header_test()),
    )
}

/// The conditions that the `if`s at `a` and above it set for the node at `n`, innermost first.
pub open spec fn conditions_from(t: Tree, a: int, n: int) -> Seq<(Seq<char>, bool)>
    decreases a,
{
    let here = if t.kind(a) == SyntaxKind::TWIG_IF {
        branch_conditions(t, a, n)
    } else {
        Seq::empty()
    };
    match t.parent(a) {
        Some(p) => {
            if 0 <= p < a {
                here + conditions_from(t, p, n)
            } else {
                here
            }
        },
        None => here,
    }
}

/// The scopes at `a` and above it, innermost first.
pub open spec fn scopes_from(t: Tree, a: int) -> Seq<(SyntaxKind, TextRange)>
    decreases a,
{
    let here = if is_scope_kind(t.kind(a)) {
        seq![(t.kind(a), t.range(a))]
    } else {
        Seq::empty()
    };
    match t.parent(a) {
        Some(p) => {
            if 0 <= p < a {
                here + scopes_from(t, p)
            } else {
                here
            }
        },
        None => here,
    }
}

/// The Twig code around the node at `n`.
pub open spec fn context_of(t: Tree, n: int) -> ContextView {
    ContextView { conditions: conditions_from(t, n, n), scopes: scopes_from(t, n) }
}

/// The child of the node at `ancestor` that the node at `node` is or is below.
fn find_child_towards(tree: &SyntaxTree, ancestor: usize, node: usize) -> (child: Option<usize>)
    requires
        tree@.valid(),
        tree@.is_node(node as int),
    ensures
        int_of(child) == child_towards(tree@, ancestor as int, node as int),
        child matches Some(c) ==> tree@.is_node(c as int) && tree@.parent(c as int) == Some(
            ancestor as int,
        ),
{
    let mut current: usize = node;
    loop
        invariant
            tree@.valid(),
            tree@.is_node(current as int),
            child_towards(tree@, ancestor as int, current as int) == child_towards(
                tree@,
                ancestor as int,
                node as int,
            ),
        decreases current,
    {
        match tree.parent(current) {
            Some(parent) => {
                assert(current > 0);
                assert(tree@.is_node(parent as int));
                if parent == ancestor {
                    return Some(current);
                }
                current = parent;
            },
            None => {
                return None;
            },
        }
    }
}

/// Adding the header at `c` to those before it.
proof fn lemma_header_added(t: Tree, heads: Seq<int>, headers: Seq<int>, c: int)
    requires
        forall|j: int| 0 <= j < heads.len() ==> #[trigger] heads[j] < c,
    ensures
        stated_conditions(t, heads.push(c), headers.push(c)) == Seq::new(
            heads.len(),
            |j: int| (condition_text(t, heads[j]), false),
        ).push((condition_text(t, c), true)),
        stated_conditions(t, heads, headers.push(c)) == Seq::new(
            heads.len(),
            |j: int| (condition_text(t, heads[j]), false),
        ),
{
    let off = Seq::new(heads.len(), |j: int| (condition_text(t, heads[j]), false));
    assert(stated_conditions(t, heads.push(c), headers.push(c)) =~= off.push(
        (condition_text(t, c), true),
    ));
    assert(stated_conditions(t, heads, headers.push(c)) =~= off);
}

/// Of the headers with a condition, only the last one can be the last header of all.
proof fn lemma_only_last_holds(t: Tree, heads: Seq<int>, headers: Seq<int>)
    requires
        forall|i: int, j: int| 0 <= i < j < heads.len() ==> heads[i] < heads[j],
        forall|i: int, j: int| 0 <= i < j < headers.len() ==> headers[i] < headers[j],
        forall|j: int| 0 <= j < heads.len() ==> headers.contains(#[trigger] heads[j]),
    ensures
        forall|j: int|
            0 <= j < heads.len() - 1 ==> !(#[trigger] stated_conditions(t, heads, headers)[j]).1,
{
    assert forall|j: int| 0 <= j < heads.len() - 1 implies !(#[trigger] stated_conditions(
        t,
        heads,
        headers,
    )[j]).1 by {
        let last = heads[heads.len() - 1];
        assert(headers.contains(last));
        let k = choose|k: int| 0 <= k < headers.len() && headers[k] == last;
        assert(headers[k] <= headers[headers.len() - 1]);
        assert(heads[j] < last);
    }
}

/// Ending the last branch leaves no condition that holds.
proof fn lemma_branch_ended(
    t: Tree,
    heads: Seq<int>,
    headers: Seq<int>,
    before: Seq<(Seq<char>, bool)>,
    after: Seq<(Seq<char>, bool)>,
)
    requires
        before == stated_conditions(t, heads, headers),
        forall|j: int| 0 <= j < heads.len() - 1 ==> !(#[trigger] before[j]).1,
        after.len() == before.len(),
        forall|j: int| 0 <= j < before.len() - 1 ==> after[j] == #[trigger] before[j],
        before.len() > 0 ==> after[before.len() - 1] == (before[before.len() - 1].0, false),
    ensures
        after == Seq::new(heads.len(), |j: int| (condition_text(t, heads[j]), false)),
{
    let off = Seq::new(heads.len(), |j: int| (condition_text(t, heads[j]), false));
    assert forall|j: int| 0 <= j < heads.len() implies after[j] == off[j] by {
        assert(before[j].0 == condition_text(t, heads[j]));
        if j < heads.len() - 1 {
            assert(!before[j].1);
            assert(after[j] == before[j]);
        }
    }
    assert(after =~= off);
}

/// What the headers among the children of an `if` up to a place are like.
proof fn lemma_header_lists(t: Tree, a: int, i: int)
    requires
        t.valid(),
        t.is_node(a),
        0 <= i <= t.child_nodes(a).len(),
    ensures
        ({
            let s = t.child_nodes(a).take(i);
            let heads = s.filter(t.condition_header_test());
            let headers = s.filter(t.header_test());
            &&& forall|i: int, j: int| 0 <= i < j < heads.len() ==> heads[i] < heads[j]
            &&& forall|i: int, j: int| 0 <= i < j < headers.len() ==> headers[i] < headers[j]
            &&& forall|j: int| 0 <= j < heads.len() ==> headers.contains(#[trigger] heads[j])
            &&& forall|j: int|
                0 <= j < heads.len() && i < t.child_nodes(a).len() ==> #[trigger] heads[j]
                    < t.child_nodes(a)[i]
        }),
{
    let kids = t.child_nodes(a);
    let s = kids.take(i);
    lemma_child_nodes(t, a);
    assert forall|x: int, y: int| 0 <= x < y < s.len() implies s[x] < s[y] by {
        assert(s[x] == kids[x] && s[y] == kids[y]);
    }
    lemma_filter_sorted(s, t.condition_header_test());
    lemma_filter_sorted(s, t.header_test());
    let heads = s.filter(t.condition_header_test());
    let headers = s.filter(t.header_test());
    assert forall|j: int| 0 <= j < heads.len() implies headers.contains(#[trigger] heads[j]) by {
        assert(t.condition_header_test()(heads[j]) && s.contains(heads[j]));
        assert(t.header_test()(heads[j]));
    }
    assert forall|j: int| 0 <= j < heads.len() && i < kids.len() implies #[trigger] heads[j]
        < kids[i] by {
        assert(s.contains(heads[j]));
        let k = choose|k: int| 0 <= k < s.len() && s[k] == heads[j];
        assert(kids[k] == heads[j]);
    }
}

/// Marks the last condition as one that does not hold.
fn end_last_branch(conditions: &mut Vec<(String, bool)>)
    ensures
        final(conditions).len() == old(conditions).len(),
        forall|j: int|
            0 <= j < old(conditions).len() - 1 ==> condition_views(final(conditions)@)[j]
                == #[trigger] condition_views(old(conditions)@)[j],
        old(conditions).len() > 0 ==> condition_views(final(conditions)@)[old(conditions).len() - 1]
            == (condition_views(old(conditions)@)[old(conditions).len() - 1].0, false),
{
    let n: usize = conditions.len();
    if n > 0 {
        conditions[n - 1].1 = false;
    }
}

/// The conditions under which the node at `node` below the `if` at `conditional` is rendered.
fn conditions_in(tree: &SyntaxTree, conditional: usize, node: usize) -> (conditions: Vec<
    (String, bool),
>)
    requires
        tree@.valid(),
        tree@.is_node(conditional as int),
        tree@.is_node(node as int),
    ensures
        condition_views(conditions@) == branch_conditions(
            tree@,
            conditional as int,
            node as int,
        ),
{
    let ghost t = tree@;
    let ghost a = conditional as int;
    let mut limit: usize = tree.end(conditional);
    if let Some(body) = find_child_towards(tree, conditional, node) {
        if let Some(counted) = find_counted_body(tree, conditional, body) {
            limit = counted;
        }
    }
    let children = tree.children(conditional);
    let ghost s = t.child_nodes(a);
    let ghost condition_test = t.condition_header_test();
    let ghost test = t.header_test();
    let mut conditions: Vec<(String, bool)> = Vec::new();
    let mut i: usize = 0;
    proof {
        lemma_child_nodes(t, a);
        lemma_filter_nothing(s, condition_test);
        lemma_filter_nothing(s, test);
        assert(condition_views(conditions@) == stated_conditions(
            t,
            s.take(0).filter(condition_test),
            s.take(0).filter(test),
        ));
    }
    while i < children.len() && children[i] < limit
        invariant
            i <= children.len(),
            t == tree@,
            t.valid(),
            a == conditional,
            t.is_node(a),
            s == ints(children@),
            s == t.child_nodes(a),
            condition_test == t.condition_header_test(),
            test == t.header_test(),
            forall|k: int| 0 <= k < s.len() ==> t.is_node(#[trigger] s[k]),
            forall|k: int, j: int| 0 <= k < j < s.len() ==> s[k] < s[j],
            forall|k: int| 0 <= k < i ==> #[trigger] s[k] < limit,
            condition_views(conditions@) == stated_conditions(
                t,
                s.take(i as int).filter(condition_test),
                s.take(i as int).filter(test),
            ),
        decreases children.len() - i,
    {
        let child: usize = children[i];
        let ghost heads = s.take(i as int).filter(condition_test);
        let ghost headers = s.take(i as int).filter(test);
        let ghost before = condition_views(conditions@);
        proof {
            assert(s[i as int] == child);
            assert(t.is_node(s[i as int]));
            lemma_filter_step(s, i as int, condition_test);
            lemma_filter_step(s, i as int, test);
            lemma_header_lists(t, a, i as int);
            lemma_only_last_holds(t, heads, headers);
            lemma_header_added(t, heads, headers, child as int);
        }
        let ghost off = Seq::new(heads.len(), |j: int| (condition_text(t, heads[j]), false));
        match tree.kind(child) {
            SyntaxKind::TWIG_IF_BLOCK | SyntaxKind::TWIG_ELSE_IF_BLOCK => {
                end_last_branch(&mut conditions);
                proof {
                    lemma_branch_ended(t, heads, headers, before, condition_views(conditions@));
                }
                let expression = match tree.child_of_kind(child, SyntaxKind::TWIG_EXPRESSION) {
                    Some(expression) => tree.key_text(expression),
                    None => String::new(),
                };
                conditions.push((expression, true));
                assert(condition_views(conditions@) =~= off.push(
                    (condition_text(t, child as int), true),
                ));
            },
            SyntaxKind::TWIG_ELSE_BLOCK => {
                end_last_branch(&mut conditions);
                proof {
                    lemma_branch_ended(t, heads, headers, before, condition_views(conditions@));
                }
            },
            _ => {},
        }
        i += 1;
    }
    proof {
        assert forall|k: int| 0 <= k < s.len() implies (#[trigger] s[k] < limit <==> k < i) by {
            if i <= k {
                assert(s[i as int] == children[i as int]);
                assert(s[i as int] <= s[k]);
            }
        }
        lemma_filter_below(s, i as int, limit as int, condition_test);
        lemma_filter_below(s, i as int, limit as int, test);
        assert(limit == header_limit(t, a, node as int));
    }
    conditions
}

/// The Twig code around the node at `node`.
pub fn branch_context(tree: &SyntaxTree, node: usize) -> (context: Context)
    requires
        tree@.valid(),
        tree@.is_node(node as int),
    ensures
        context@ == context_of(tree@, node as int),
{
    let ghost t = tree@;
    let ghost n = node as int;
    let mut conditions: Vec<(String, bool)> = Vec::new();
    let mut scopes: Vec<(SyntaxKind, TextRange)> = Vec::new();
    let mut ancestor: usize = node;
    proof {
        assert(condition_views(conditions@) + conditions_from(t, n, n) == conditions_from(t, n, n));
        assert(scopes@ + scopes_from(t, n) == scopes_from(t, n));
    }
    loop
        invariant
            t == tree@,
            t.valid(),
            n == node,
            t.is_node(n),
            t.is_node(ancestor as int),
            condition_views(conditions@) + conditions_from(t, ancestor as int, n)
                == conditions_from(t, n, n),
            scopes@ + scopes_from(t, ancestor as int) == scopes_from(t, n),
        decreases ancestor,
    {
        let ghost a = ancestor as int;
        let ghost conditions_before = condition_views(conditions@);
        let ghost scopes_before = scopes@;
        let kind = tree.kind(ancestor);
        if kind == SyntaxKind::TWIG_IF {
            let mut more = conditions_in(tree, ancestor, node);
            let ghost added = more@;
            conditions.append(&mut more);
            assert(condition_views(conditions@) == conditions_before + condition_views(added));
        } else if is_twig_scope(kind) {
            scopes.push((kind, tree.text_range(ancestor)));
            assert(scopes@ == scopes_before + seq![(t.kind(a), t.range(a))]);
        }
        match tree.parent(ancestor) {
            Some(parent) => {
                proof {
                    assert(ancestor > 0);
                    let p = parent as int;
                    assert(t.is_node(p));
                    let here = if t.kind(a) == SyntaxKind::TWIG_IF {
                        branch_conditions(t, a, n)
                    } else {
                        Seq::empty()
                    };
                    assert(condition_views(conditions@) == conditions_before + here);
                    assert(conditions_before + (here + conditions_from(t, p, n)) == (
                    conditions_before + here) + conditions_from(t, p, n));
                    let scope = if is_scope_kind(t.kind(a)) {
                        seq![(t.kind(a), t.range(a))]
                    } else {
                        Seq::empty()
                    };
                    assert(scopes@ == scopes_before + scope);
                    assert(scopes_before + (scope + scopes_from(t, p)) == (scopes_before + scope)
                        + scopes_from(t, p));
                }
                ancestor = parent;
            },
            None => {
                assert(condition_views(conditions@) == conditions_from(t, n, n));
                assert(scopes@ == scopes_from(t, n));
                return Context { conditions, scopes };
            },
        }
    }
}

// ---- Errors ----

/// An error at `range`, where the tag at hand is not expected.
pub open spec fn plain_error(range: TextRange, expected: Seq<char>, opening: bool) -> ErrorView {
    ErrorView {
        range,
        found: Some(
            if opening {
                SyntaxKind::TK_LESS_THAN
            } else {
                SyntaxKind::TK_LESS_THAN_SLASH
            },
        ),
        expected,
        secondary: None,
        message: None,
    }
}

/// An error at `range`, where the tag at hand is not expected.
pub fn parse_error(range: TextRange, expected: String, opening: bool) -> (error: ParseError)
    ensures
        error@ == plain_error(range, expected@, opening),
{
    ParseError {
        range,
        found: Some(
            if opening {
                SyntaxKind::TK_LESS_THAN
            } else {
                SyntaxKind::TK_LESS_THAN_SLASH
            },
        ),
        expected,
        secondary: None,
        message: None,
    }
}

/// What a closing tag without its opening tag asks for.
pub open spec fn expected_opening(name: Seq<char>) -> Seq<char> {
    "an opening <"@ + name + "> under the same Twig conditions"@
}

/// What an opening tag without its closing tag asks for.
pub open spec fn expected_closing(name: Seq<char>) -> Seq<char> {
    "a closing </"@ + name + "> under the same Twig conditions"@
}

/// Why two tags do not match.
pub open spec fn mismatch_reason(opening: FragmentView, closing: FragmentView) -> Seq<char> {
    if opening.key != closing.key {
        "different tag-name expressions"@
    } else if opening.context.conditions == closing.context.conditions {
        "different Twig scopes"@
    } else {
        "different Twig conditions"@
    }
}

/// The error for a closing tag that does not match the opening tag it stands against.
pub open spec fn mismatch_error(opening: FragmentView, closing: FragmentView) -> ErrorView {
    ErrorView {
        message: Some(
            "closing </"@ + closing.name + "> does not match opening <"@ + opening.name + ">: "@
                + mismatch_reason(opening, closing),
        ),
        secondary: Some((opening.range, "opening <"@ + opening.name + "> is here"@)),
        ..plain_error(closing.range, expected_opening(closing.name), false)
    }
}

/// Whether two lists of conditions are the same.
fn same_conditions(a: &Vec<(String, bool)>, b: &Vec<(String, bool)>) -> (same: bool)
    ensures
        same == (condition_views(a@) == condition_views(b@)),
{
    let ghost va = condition_views(a@);
    let ghost vb = condition_views(b@);
    if a.len() != b.len() {
        assert(va.len() != vb.len());
        return false;
    }
    let mut i: usize = 0;
    while i < a.len()
        invariant
            i <= a.len(),
            a.len() == b.len(),
            va == condition_views(a@),
            vb == condition_views(b@),
            forall|k: int| 0 <= k < i ==> va[k] == #[trigger] vb[k],
        decreases a.len() - i,
    {
        if a[i].0 != b[i].0 || a[i].1 != b[i].1 {
            assert(va[i as int] != vb[i as int]);
            return false;
        }
        i += 1;
    }
    assert(va == vb);
    true
}

/// Whether two lists of scopes are the same.
fn same_scopes(a: &Vec<(SyntaxKind, TextRange)>, b: &Vec<(SyntaxKind, TextRange)>) -> (same: bool)
    ensures
        same == (a@ == b@),
{
    if a.len() != b.len() {
        return false;
    }
    let mut i: usize = 0;
    while i < a.len()
        invariant
            i <= a.len(),
            a.len() == b.len(),
            forall|k: int| 0 <= k < i ==> a@[k] == #[trigger] b@[k],
        decreases a.len() - i,
    {
        if a[i].0 != b[i].0 || a[i].1 != b[i].1 {
            assert(a@[i as int] != b@[i as int]);
            return false;
        }
        i += 1;
    }
    assert(a@ == b@);
    true
}

/// The error for a closing tag that does not match the opening tag it stands against.
pub fn mismatched_fragment_error(opening: &Fragment, closing: &Fragment) -> (error: ParseError)
    ensures
        error@ == mismatch_error(opening@, closing@),
{
    let mut error = parse_error(
        closing.range,
        concat3("an opening <", closing.name.as_str(), "> under the same Twig conditions"),
        false,
    );
    let reason = if opening.key != closing.key {
        "different tag-name expressions"
    } else if same_conditions(&opening.context.conditions, &closing.context.conditions) {
        "different Twig scopes"
    } else {
        "different Twig conditions"
    };
    let first = concat3("closing </", closing.name.as_str(), "> does not match opening <");
    let second = concat3(first.as_str(), opening.name.as_str(), ">: ");
    error.message = Some(concat2(second.as_str(), reason));
    error.secondary = Some(
        (opening.range, concat3("opening <", opening.name.as_str(), "> is here")),
    );
    error
}

/// Whether two conditions of the same text cannot hold together.
pub open spec fn contradict(a: (Seq<char>, bool), b: (Seq<char>, bool)) -> bool {
    a.0 == b.0 && a.1 != b.1
}

/// Whether two contexts have contradicting conditions.
pub open spec fn exclusive(a: ContextView, b: ContextView) -> bool {
    exists|i: int, j: int|
        0 <= i < a.conditions.len() && 0 <= j < b.conditions.len() && contradict(
            #[trigger] a.conditions[i],
            #[trigger] b.conditions[j],
        )
}

/// Whether two contexts have contradicting conditions.
pub fn mutually_exclusive(a: &Context, b: &Context) -> (is: bool)
    ensures
        is == exclusive(a@, b@),
{
    let ghost va = a@.conditions;
    let ghost vb = b@.conditions;
    let mut i: usize = 0;
    while i < a.conditions.len()
        invariant
            i <= a.conditions.len(),
            va == a@.conditions,
            vb == b@.conditions,
            forall|k: int, j: int|
                0 <= k < i && 0 <= j < vb.len() ==> !contradict(#[trigger] va[k], #[trigger] vb[j]),
        decreases a.conditions.len() - i,
    {
        let mut j: usize = 0;
        while j < b.conditions.len()
            invariant
                i < a.conditions.len(),
                j <= b.conditions.len(),
                va == a@.conditions,
                vb == b@.conditions,
                forall|h: int| 0 <= h < j ==> !contradict(va[i as int], #[trigger] vb[h]),
            decreases b.conditions.len() - j,
        {
            if a.conditions[i].0 == b.conditions[j].0 && a.conditions[i].1 != b.conditions[j].1 {
                assert(contradict(va[i as int], vb[j as int]));
                return true;
            }
            j += 1;
        }
        i += 1;
    }
    false
}

// ---- The fragments of a template ----

/// The fragment that the tag at `tag` makes up in the context of the node at `n`.
pub open spec fn fragment_of(t: Tree, tag: int, n: int, opening: bool) -> FragmentView {
    let (name, key, range) = name_of_tag(t, tag)->0;
    FragmentView { name, key, context: context_of(t, n), range, opening }
}

/// The fragment that the node at `n` leaves: an HTML element whose closing tag has no name leaves
/// its opening tag, and a closing tag that is not part of an HTML element leaves itself.
pub open spec fn fragment_at(t: Tree, n: int) -> Option<FragmentView> {
    if t.kind(n) == SyntaxKind::HTML_TAG {
        match (
            t.child_of_kind(n, SyntaxKind::HTML_STARTING_TAG),
            t.child_of_kind(n, SyntaxKind::HTML_ENDING_TAG),
        ) {
            (Some(starting), Some(ending)) => {
                if name_of_tag(t, ending) is None && name_of_tag(t, starting) is Some {
                    Some(fragment_of(t, starting, n, true))
                } else {
                    None
                }
            },
            _ => None,
        }
    } else if t.kind(n) == SyntaxKind::HTML_ENDING_TAG {
        if !(t.parent(n) matches Some(p) && t.kind(p) == SyntaxKind::HTML_TAG) && name_of_tag(
            t,
            n,
        ) is Some {
            Some(fragment_of(t, n, n, false))
        } else {
            None
        }
    } else {
        None
    }
}

/// The error for the node at `n` if it is an HTML element whose two tags have different names.
pub open spec fn mismatch_at(t: Tree, n: int) -> Option<ErrorView> {
    if t.kind(n) == SyntaxKind::HTML_TAG {
        match (
            t.child_of_kind(n, SyntaxKind::HTML_STARTING_TAG),
            t.child_of_kind(n, SyntaxKind::HTML_ENDING_TAG),
        ) {
            (Some(starting), Some(ending)) => {
                match (name_of_tag(t, starting), name_of_tag(t, ending)) {
                    (Some(opening), Some(closing)) => {
                        if opening.1 != closing.1 {
                            Some(
                                mismatch_error(
                                    fragment_of(t, starting, n, true),
                                    fragment_of(t, ending, n, false),
                                ),
                            )
                        } else {
                            None
                        }
                    },
                    _ => None,
                }
            },
            _ => None,
        }
    } else {
        None
    }
}

/// The fragments that the nodes at `lo..hi` leave, in order.
pub open spec fn fragments_between(t: Tree, lo: int, hi: int) -> Seq<FragmentView>
    decreases hi - lo,
{
    if lo >= hi {
        Seq::empty()
    } else if t.is_node(hi - 1) && fragment_at(t, hi - 1) is Some {
        fragments_between(t, lo, hi - 1).push(fragment_at(t, hi - 1)->0)
    } else {
        fragments_between(t, lo, hi - 1)
    }
}

/// The errors for the HTML elements at `lo..hi` whose two tags have different names, in order.
pub open spec fn mismatches_between(t: Tree, lo: int, hi: int) -> Seq<ErrorView>
    decreases hi - lo,
{
    if lo >= hi {
        Seq::empty()
    } else if t.is_node(hi - 1) && mismatch_at(t, hi - 1) is Some {
        mismatches_between(t, lo, hi - 1).push(mismatch_at(t, hi - 1)->0)
    } else {
        mismatches_between(t, lo, hi - 1)
    }
}

fn make_fragment(
    tree: &SyntaxTree,
    node: usize,
    name: (String, String, TextRange),
    opening: bool,
) -> (fragment: Fragment)
    requires
        tree@.valid(),
        tree@.is_node(node as int),
    ensures
        fragment@ == (FragmentView {
            name: name.0@,
            key: name.1@,
            context: context_of(tree@, node as int),
            range: name.2,
            opening,
        }),
{
    let (name, key, range) = name;
    Fragment { name, key, context: branch_context(tree, node), range, opening }
}

/// A fragment, if there is one, with its texts as characters.
spec fn fragment_view(fragment: Option<Fragment>) -> Option<FragmentView> {
    match fragment {
        Some(f) => Some(f@),
        None => None,
    }
}

/// An error, if there is one, with its texts as characters.
spec fn error_view(error: Option<ParseError>) -> Option<ErrorView> {
    match error {
        Some(e) => Some(e@),
        None => None,
    }
}

/// The fragment that the node at `node` leaves.
fn find_fragment(tree: &SyntaxTree, node: usize) -> (fragment: Option<Fragment>)
    requires
        tree@.valid(),
        tree@.is_node(node as int),
    ensures
        fragment_view(fragment) == fragment_at(tree@, node as int),
{
    let kind = tree.kind(node);
    if kind == SyntaxKind::HTML_TAG {
        let Some(starting) = tree.child_of_kind(node, SyntaxKind::HTML_STARTING_TAG) else {
            return None;
        };
        let Some(ending) = tree.child_of_kind(node, SyntaxKind::HTML_ENDING_TAG) else {
            return None;
        };
        if tag_name(tree, ending).is_some() {
            return None;
        }
        match tag_name(tree, starting) {
            Some(name) => Some(make_fragment(tree, node, name, true)),
            None => None,
        }
    } else if kind == SyntaxKind::HTML_ENDING_TAG {
        if let Some(parent) = tree.parent(node) {
            assert(node > 0);
            if tree.kind(parent) == SyntaxKind::HTML_TAG {
                return None;
            }
        }
        match tag_name(tree, node) {
            Some(name) => Some(make_fragment(tree, node, name, false)),
            None => None,
        }
    } else {
        None
    }
}

/// The error for the node at `node` if it is an HTML element whose two tags have different names.
fn find_mismatch(tree: &SyntaxTree, node: usize) -> (error: Option<ParseError>)
    requires
        tree@.valid(),
        tree@.is_node(node as int),
    ensures
        error_view(error) == mismatch_at(tree@, node as int),
{
    if tree.kind(node) != SyntaxKind::HTML_TAG {
        return None;
    }
    let Some(starting) = tree.child_of_kind(node, SyntaxKind::HTML_STARTING_TAG) else {
        return None;
    };
    let Some(ending) = tree.child_of_kind(node, SyntaxKind::HTML_ENDING_TAG) else {
        return None;
    };
    let Some(opening) = tag_name(tree, starting) else {
        return None;
    };
    let Some(closing) = tag_name(tree, ending) else {
        return None;
    };
    if opening.1 == closing.1 {
        return None;
    }
    let opening = make_fragment(tree, node, opening, true);
    let closing = make_fragment(tree, node, closing, false);
    Some(mismatched_fragment_error(&opening, &closing))
}

/// The fragments below the node at `root`, and the errors for HTML elements whose two tags have
/// different names.
pub fn collect_fragments(tree: &SyntaxTree, root: usize) -> (collected: (
    Vec<Fragment>,
    Vec<ParseError>,
))
    requires
        tree@.valid(),
        tree@.is_node(root as int),
    ensures
        fragment_views(collected.0@) == fragments_between(
            tree@,
            root as int,
            tree@.end(root as int),
        ),
        error_views(collected.1@) == mismatches_between(
            tree@,
            root as int,
            tree@.end(root as int),
        ),
{
    let ghost t = tree@;
    let mut fragments: Vec<Fragment> = Vec::new();
    let mut errors: Vec<ParseError> = Vec::new();
    let hi: usize = tree.end(root);
    let mut node: usize = root;
    assert(fragment_views(fragments@) == fragments_between(t, root as int, root as int));
    assert(error_views(errors@) == mismatches_between(t, root as int, root as int));
    while node < hi
        invariant
            t == tree@,
            t.valid(),
            root <= node <= hi,
            hi <= t.len(),
            fragment_views(fragments@) == fragments_between(t, root as int, node as int),
            error_views(errors@) == mismatches_between(t, root as int, node as int),
        decreases hi - node,
    {
        let ghost fragments_before = fragment_views(fragments@);
        let ghost errors_before = error_views(errors@);
        if tree.is_node(node) {
            if let Some(error) = find_mismatch(tree, node) {
                let ghost view = error@;
                errors.push(error);
                assert(error_views(errors@) == errors_before.push(view));
            }
            if let Some(fragment) = find_fragment(tree, node) {
                let ghost view = fragment@;
                fragments.push(fragment);
                assert(fragment_views(fragments@) == fragments_before.push(view));
            }
        }
        node += 1;
    }
    (fragments, errors)
}

// ---- Matching the fragments ----

/// The last place of a list for which `p` holds.
pub open spec fn last_place(positions: Seq<int>, p: spec_fn(int) -> bool) -> Option<int>
    decreases positions.len(),
{
    if positions.len() == 0 {
        None
    } else if p(positions.last()) {
        Some(positions.len() - 1)
    } else {
        last_place(positions.drop_last(), p)
    }
}

/// Whether the key of a tag comes from a Twig expression.
pub open spec fn is_dynamic(key: Seq<char>) -> bool {
    DYNAMIC_HTML_TAG_PREFIX@.is_prefix_of(key)
}

/// Whether an opening tag and a closing tag match: they have the same name under the same
/// conditions, and under any condition in the same scopes.
pub open spec fn fits(opening: FragmentView, closing: FragmentView) -> bool {
    &&& opening.key == closing.key
    &&& opening.context.conditions == closing.context.conditions
    &&& opening.context.conditions.len() == 0 || opening.context.scopes == closing.context.scopes
}

/// Whether a closing tag that matches nothing is held against an opening tag: they have the same
/// name, or both names are Twig expressions.
pub open spec fn resembles(opening: FragmentView, closing: FragmentView) -> bool {
    opening.key == closing.key || (is_dynamic(opening.key) && is_dynamic(closing.key))
}

/// The test for opening tags that match the closing tag `closing`.
pub open spec fn fitting(fs: Seq<FragmentView>, closing: FragmentView) -> spec_fn(int) -> bool {
    |k: int| fits(fs[k], closing)
}

/// The test for opening tags that the closing tag `closing` is held against.
pub open spec fn resembling(fs: Seq<FragmentView>, closing: FragmentView) -> spec_fn(int) -> bool {
    |k: int| resembles(fs[k], closing)
}

/// What is known after some of the fragments.
pub struct Matching {
    /// The opening tags that wait for their closing tag.
    pub openings: Seq<int>,
    /// The opening and closing tags that belong together.
    pub pairs: Seq<(int, int)>,
    /// The errors of closing tags.
    pub errors: Seq<ErrorView>,
}

/// The matching with the fragment at `i` added. An opening tag waits. A closing tag takes the last
/// waiting tag that matches it; if none does, it is an error, and takes the last waiting tag that
/// it can be held against, if there is one.
pub open spec fn matched(fs: Seq<FragmentView>, m: Matching, i: int) -> Matching {
    let f = fs[i];
    if f.opening {
        Matching { openings: m.openings.push(i), ..m }
    } else {
        match last_place(m.openings, fitting(fs, f)) {
            Some(k) => Matching {
                openings: m.openings.remove(k),
                pairs: m.pairs.push((m.openings[k], i)),
                ..m
            },
            None => match last_place(m.openings, resembling(fs, f)) {
                Some(k) => Matching {
                    openings: m.openings.remove(k),
                    errors: m.errors.push(mismatch_error(fs[m.openings[k]], f)),
                    ..m
                },
                None => Matching {
                    errors: m.errors.push(plain_error(f.range, expected_opening(f.name), false)),
                    ..m
                },
            },
        }
    }
}

/// The matching of the first `n` fragments.
pub open spec fn matching(fs: Seq<FragmentView>, n: int) -> Matching
    decreases n,
{
    if n <= 0 {
        Matching { openings: Seq::empty(), pairs: Seq::empty(), errors: Seq::empty() }
    } else {
        matched(fs, matching(fs, n - 1), n - 1)
    }
}

/// The errors for the opening tags that still wait at the end.
pub open spec fn leftover_errors(fs: Seq<FragmentView>, openings: Seq<int>) -> Seq<ErrorView> {
    Seq::new(
        openings.len(),
        |k: int|
            plain_error(fs[openings[k]].range, expected_closing(fs[openings[k]].name), true),
    )
}

/// Whether two pairs overlap without one being inside the other, and can be rendered together.
pub open spec fn crosses(fs: Seq<FragmentView>, left: (int, int), right: (int, int)) -> bool {
    &&& left.0 < right.0 < left.1 < right.1
    &&& !exclusive(fs[left.0].context, fs[right.0].context)
}

/// The error for a pair that crosses a later one.
pub open spec fn crossing_error(fs: Seq<FragmentView>, left: (int, int)) -> ErrorView {
    plain_error(
        fs[left.1].range,
        "properly nested HTML tags under the same Twig conditions"@,
        false,
    )
}

/// The errors for the pair at `i` against the pairs after it and before `j`.
pub open spec fn crossings_of(fs: Seq<FragmentView>, pairs: Seq<(int, int)>, i: int, j: int) -> Seq<
    ErrorView,
>
    decreases j - i,
{
    if j <= i + 1 {
        Seq::empty()
    } else if crosses(fs, pairs[i], pairs[j - 1]) {
        crossings_of(fs, pairs, i, j - 1).push(crossing_error(fs, pairs[i]))
    } else {
        crossings_of(fs, pairs, i, j - 1)
    }
}

/// The errors for the first `n` pairs against the pairs after them.
pub open spec fn crossings(fs: Seq<FragmentView>, pairs: Seq<(int, int)>, n: int) -> Seq<ErrorView>
    decreases n,
{
    if n <= 0 {
        Seq::empty()
    } else {
        crossings(fs, pairs, n - 1) + crossings_of(fs, pairs, n - 1, pairs.len() as int)
    }
}

/// The errors of the fragments among themselves.
pub open spec fn fragment_errors(fs: Seq<FragmentView>) -> Seq<ErrorView> {
    let m = matching(fs, fs.len() as int);
    m.errors + leftover_errors(fs, m.openings) + crossings(fs, m.pairs, m.pairs.len() as int)
}

/// All errors below the node at `root`.
pub open spec fn errors_below(t: Tree, root: int) -> Seq<ErrorView> {
    mismatches_between(t, root, t.end(root)) + fragment_errors(
        fragments_between(t, root, t.end(root)),
    )
}

/// A step of the search for the last match.
proof fn lemma_last_place_step(s: Seq<int>, i: int, p: spec_fn(int) -> bool)
    requires
        0 < i <= s.len(),
    ensures
        last_place(s.take(i), p) == (if p(s[i - 1]) {
            Some(i - 1)
        } else {
            last_place(s.take(i - 1), p)
        }),
{
    assert(s.take(i).drop_last() == s.take(i - 1));
    assert(s.take(i).last() == s[i - 1]);
}

/// What `last_place` finds: the last place for which the test holds.
pub proof fn lemma_last_place(s: Seq<int>, p: spec_fn(int) -> bool)
    ensures
        match last_place(s, p) {
            Some(k) => 0 <= k < s.len() && p(s[k]) && forall|j: int|
                k < j < s.len() ==> !p(#[trigger] s[j]),
            None => forall|j: int| 0 <= j < s.len() ==> !p(#[trigger] s[j]),
        },
    decreases s.len(),
{
    if s.len() > 0 && !p(s.last()) {
        let init = s.drop_last();
        lemma_last_place(init, p);
        assert(s[s.len() - 1] == s.last());
        assert forall|j: int| 0 <= j < init.len() implies #[trigger] s[j] == init[j] by {}
    }
}

/// Whether the key of a tag comes from a Twig expression.
fn has_dynamic_key(key: &str) -> (dynamic: bool)
    ensures
        dynamic == is_dynamic(key@),
{
    starts_with(key, DYNAMIC_HTML_TAG_PREFIX)
}

/// The place of the last of the tags at `openings` that matches the closing tag `closing`.
fn find_fitting(fragments: &Vec<Fragment>, openings: &Vec<usize>, closing: &Fragment) -> (place:
    Option<usize>)
    requires
        forall|k: int| 0 <= k < openings.len() ==> #[trigger] openings[k] < fragments.len(),
    ensures
        int_of(place) == last_place(
            ints(openings@),
            fitting(fragment_views(fragments@), closing@),
        ),
{
    let ghost s = ints(openings@);
    let ghost p = fitting(fragment_views(fragments@), closing@);
    let mut i: usize = openings.len();
    assert(s.take(i as int) == s);
    while i > 0
        invariant
            i <= openings.len(),
            s == ints(openings@),
            p == fitting(fragment_views(fragments@), closing@),
            forall|k: int| 0 <= k < openings.len() ==> #[trigger] openings[k] < fragments.len(),
            last_place(s.take(i as int), p) == last_place(s, p),
        decreases i,
    {
        proof {
            lemma_last_place_step(s, i as int, p);
        }
        let candidate = &fragments[openings[i - 1]];
        assert(s[i - 1] == openings[i - 1]);
        if candidate.key == closing.key && same_conditions(
            &candidate.context.conditions,
            &closing.context.conditions,
        ) && (candidate.context.conditions.len() == 0 || same_scopes(
            &candidate.context.scopes,
            &closing.context.scopes,
        )) {
            return Some(i - 1);
        }
        i -= 1;
    }
    None
}

/// The place of the last of the tags at `openings` that the closing tag `closing` is held against.
fn find_resembling(fragments: &Vec<Fragment>, openings: &Vec<usize>, closing: &Fragment) -> (place:
    Option<usize>)
    requires
        forall|k: int| 0 <= k < openings.len() ==> #[trigger] openings[k] < fragments.len(),
    ensures
        int_of(place) == last_place(
            ints(openings@),
            resembling(fragment_views(fragments@), closing@),
        ),
{
    let ghost s = ints(openings@);
    let ghost p = resembling(fragment_views(fragments@), closing@);
    let mut i: usize = openings.len();
    assert(s.take(i as int) == s);
    while i > 0
        invariant
            i <= openings.len(),
            s == ints(openings@),
            p == resembling(fragment_views(fragments@), closing@),
            forall|k: int| 0 <= k < openings.len() ==> #[trigger] openings[k] < fragments.len(),
            last_place(s.take(i as int), p) == last_place(s, p),
        decreases i,
    {
        proof {
            lemma_last_place_step(s, i as int, p);
        }
        let candidate = &fragments[openings[i - 1]];
        assert(s[i - 1] == openings[i - 1]);
        if candidate.key == closing.key || (has_dynamic_key(candidate.key.as_str())
            && has_dynamic_key(closing.key.as_str())) {
            return Some(i - 1);
        }
        i -= 1;
    }
    None
}

/// The pairs of a list as integers.
pub open spec fn pair_ints(pairs: Seq<(usize, usize)>) -> Seq<(int, int)> {
    Seq::new(pairs.len(), |i: int| (pairs[i].0 as int, pairs[i].1 as int))
}

/// Matches the fragments and adds the errors of closing tags to `errors`. Returns the opening tags
/// that still wait and the pairs.
fn match_fragments(fragments: &Vec<Fragment>, errors: &mut Vec<ParseError>) -> (matches: (
    Vec<usize>,
    Vec<(usize, usize)>,
))
    ensures
        ({
            let fs = fragment_views(fragments@);
            let m = matching(fs, fs.len() as int);
            &&& ints(matches.0@) == m.openings
            &&& pair_ints(matches.1@) == m.pairs
            &&& error_views(final(errors)@) == error_views(old(errors)@) + m.errors
            &&& forall|k: int|
                0 <= k < matches.0.len() ==> #[trigger] matches.0[k] < fragments.len()
            &&& forall|k: int|
                0 <= k < matches.1.len() ==> (#[trigger] matches.1[k]).0 < fragments.len()
                    && matches.1[k].1 < fragments.len()
        }),
{
    let ghost fs = fragment_views(fragments@);
    let ghost errors_before = error_views(errors@);
    let mut openings: Vec<usize> = Vec::new();
    let mut pairs: Vec<(usize, usize)> = Vec::new();
    let mut index: usize = 0;
    proof {
        let m = matching(fs, 0);
        assert(ints(openings@) == m.openings);
        assert(pair_ints(pairs@) == m.pairs);
        assert(errors_before + m.errors == errors_before);
    }
    while index < fragments.len()
        invariant
            index <= fragments.len(),
            fs == fragment_views(fragments@),
            ints(openings@) == matching(fs, index as int).openings,
            pair_ints(pairs@) == matching(fs, index as int).pairs,
            error_views(errors@) == errors_before + matching(fs, index as int).errors,
            forall|k: int| 0 <= k < openings.len() ==> #[trigger] openings[k] < fragments.len(),
            forall|k: int|
                0 <= k < pairs.len() ==> (#[trigger] pairs[k]).0 < fragments.len() && pairs[k].1
                    < fragments.len(),
        decreases fragments.len() - index,
    {
        let ghost m = matching(fs, index as int);
        let ghost next = matching(fs, index + 1);
        let ghost so_far = error_views(errors@);
        let fragment = &fragments[index];
        proof {
            assert(fs[index as int] == fragment@);
            assert(next == matched(fs, m, index as int));
            lemma_last_place(m.openings, fitting(fs, fragment@));
            lemma_last_place(m.openings, resembling(fs, fragment@));
        }
        if fragment.opening {
            openings.push(index);
            assert(ints(openings@) == next.openings);
        } else if let Some(position) = find_fitting(fragments, &openings, fragment) {
            let ghost waiting = openings@;
            let opening: usize = openings.remove(position);
            pairs.push((opening, index));
            proof {
                assert(m.openings[position as int] == opening);
                assert(ints(openings@) == next.openings);
                assert(pair_ints(pairs@) == next.pairs);
                assert forall|k: int| 0 <= k < openings.len() implies #[trigger] openings[k]
                    < fragments.len() by {
                    assert(openings[k] == waiting[if k < position {
                        k
                    } else {
                        k + 1
                    }]);
                }
            }
        } else if let Some(position) = find_resembling(fragments, &openings, fragment) {
            let ghost waiting = openings@;
            let opening: usize = openings.remove(position);
            let error = mismatched_fragment_error(&fragments[opening], fragment);
            let ghost view = error@;
            errors.push(error);
            proof {
                assert(m.openings[position as int] == opening);
                assert(fs[opening as int] == fragments[opening as int]@);
                assert(ints(openings@) == next.openings);
                assert(error_views(errors@) == so_far.push(view));
                assert(so_far.push(view) == errors_before + next.errors);
                assert forall|k: int| 0 <= k < openings.len() implies #[trigger] openings[k]
                    < fragments.len() by {
                    assert(openings[k] == waiting[if k < position {
                        k
                    } else {
                        k + 1
                    }]);
                }
            }
        } else {
            let error = parse_error(
                fragment.range,
                concat3(
                    "an opening <",
                    fragment.name.as_str(),
                    "> under the same Twig conditions",
                ),
                false,
            );
            let ghost view = error@;
            errors.push(error);
            proof {
                assert(error_views(errors@) == so_far.push(view));
                assert(so_far.push(view) == errors_before + next.errors);
            }
        }
        index += 1;
    }
    (openings, pairs)
}

/// Adds the errors for the tags at `openings` to `errors`.
fn report_leftovers(
    fragments: &Vec<Fragment>,
    openings: &Vec<usize>,
    errors: &mut Vec<ParseError>,
)
    requires
        forall|k: int| 0 <= k < openings.len() ==> #[trigger] openings[k] < fragments.len(),
    ensures
        error_views(final(errors)@) == error_views(old(errors)@) + leftover_errors(
            fragment_views(fragments@),
            ints(openings@),
        ),
{
    let ghost fs = fragment_views(fragments@);
    let ghost errors_before = error_views(errors@);
    let ghost all = leftover_errors(fs, ints(openings@));
    let mut i: usize = 0;
    assert(errors_before + all.take(0) == errors_before);
    while i < openings.len()
        invariant
            i <= openings.len(),
            fs == fragment_views(fragments@),
            all == leftover_errors(fs, ints(openings@)),
            forall|k: int| 0 <= k < openings.len() ==> #[trigger] openings[k] < fragments.len(),
            error_views(errors@) == errors_before + all.take(i as int),
        decreases openings.len() - i,
    {
        let ghost so_far = error_views(errors@);
        let fragment = &fragments[openings[i]];
        let error = parse_error(
            fragment.range,
            concat3("a closing </", fragment.name.as_str(), "> under the same Twig conditions"),
            true,
        );
        let ghost view = error@;
        errors.push(error);
        proof {
            assert(fs[openings[i as int] as int] == fragment@);
            assert(view == all[i as int]);
            assert(error_views(errors@) == so_far.push(view));
            assert(so_far.push(view) == errors_before + all.take(i + 1));
        }
        i += 1;
    }
    assert(all.take(i as int) == all);
}

/// Adds the errors for pairs that cross to `errors`.
fn report_crossings(
    fragments: &Vec<Fragment>,
    pairs: &Vec<(usize, usize)>,
    errors: &mut Vec<ParseError>,
)
    requires
        forall|k: int|
            0 <= k < pairs.len() ==> (#[trigger] pairs[k]).0 < fragments.len() && pairs[k].1
                < fragments.len(),
    ensures
        error_views(final(errors)@) == error_views(old(errors)@) + crossings(
            fragment_views(fragments@),
            pair_ints(pairs@),
            pairs.len() as int,
        ),
{
    let ghost fs = fragment_views(fragments@);
    let ghost ps = pair_ints(pairs@);
    let ghost errors_before = error_views(errors@);
    let mut i: usize = 0;
    assert(errors_before + crossings(fs, ps, 0) == errors_before);
    while i < pairs.len()
        invariant
            i <= pairs.len(),
            fs == fragment_views(fragments@),
            ps == pair_ints(pairs@),
            forall|k: int|
                0 <= k < pairs.len() ==> (#[trigger] pairs[k]).0 < fragments.len() && pairs[k].1
                    < fragments.len(),
            error_views(errors@) == errors_before + crossings(fs, ps, i as int),
        decreases pairs.len() - i,
    {
        let (left_open, left_close) = pairs[i];
        let ghost row_before = error_views(errors@);
        let mut j: usize = i + 1;
        assert(row_before + crossings_of(fs, ps, i as int, i + 1) == row_before);
        while j < pairs.len()
            invariant
                i < j <= pairs.len(),
                fs == fragment_views(fragments@),
                ps == pair_ints(pairs@),
                pairs[i as int] == (left_open, left_close),
                forall|k: int|
                    0 <= k < pairs.len() ==> (#[trigger] pairs[k]).0 < fragments.len()
                        && pairs[k].1 < fragments.len(),
                error_views(errors@) == row_before + crossings_of(fs, ps, i as int, j as int),
            decreases pairs.len() - j,
        {
            let (right_open, right_close) = pairs[j];
            let ghost so_far = error_views(errors@);
            proof {
                assert(ps[i as int] == (left_open as int, left_close as int));
                assert(ps[j as int] == (right_open as int, right_close as int));
                assert(fs[left_open as int] == fragments[left_open as int]@);
                assert(fs[right_open as int] == fragments[right_open as int]@);
                assert(fs[left_close as int] == fragments[left_close as int]@);
            }
            if left_open < right_open && right_open < left_close && left_close < right_close
                && !mutually_exclusive(
                &fragments[left_open].context,
                &fragments[right_open].context,
            ) {
                let error = parse_error(
                    fragments[left_close].range,
                    "properly nested HTML tags under the same Twig conditions".to_owned(),
                    false,
                );
                let ghost view = error@;
                errors.push(error);
                proof {
                    assert(view == crossing_error(fs, ps[i as int]));
                    assert(error_views(errors@) == so_far.push(view));
                    assert(so_far.push(view) == row_before + crossings_of(
                        fs,
                        ps,
                        i as int,
                        j + 1,
                    ));
                }
            }
            j += 1;
        }
        proof {
            assert(row_before + crossings_of(fs, ps, i as int, ps.len() as int) == errors_before
                + crossings(fs, ps, i + 1));
        }
        i += 1;
    }
}

/// The errors of the tags below the node at `root` that do not match.
pub fn validate(tree: &SyntaxTree, root: usize) -> (errors: Vec<ParseError>)
    requires
        tree@.valid(),
        tree@.is_node(root as int),
    ensures
        error_views(errors@) == errors_below(tree@, root as int),
{
    let (fragments, mut errors) = collect_fragments(tree, root);
    let ghost fs = fragment_views(fragments@);
    let ghost collected = error_views(errors@);
    let (openings, pairs) = match_fragments(&fragments, &mut errors);
    report_leftovers(&fragments, &openings, &mut errors);
    report_crossings(&fragments, &pairs, &mut errors);
    assert(error_views(errors@) == collected + fragment_errors(fs));
    errors
}

} // verus!
