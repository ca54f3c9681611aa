use ludtwig::html_fragments::{
    branch_context, collect_fragments, is_twig_scope, mismatched_fragment_error,
    mutually_exclusive, parse_error, tag_name, validate, Context, Fragment, ParseError,
};
use ludtwig::kind::SyntaxKind;
use ludtwig::tree::{SyntaxTree, TextRange};

enum Part {
    Node(SyntaxKind, Vec<Part>),
    Token(SyntaxKind, String),
}

fn node(kind: SyntaxKind, parts: Vec<Part>) -> Part {
    Part::Node(kind, parts)
}

fn token(kind: SyntaxKind, text: &str) -> Part {
    Part::Token(kind, text.to_string())
}

/// A token of a kind without a name.
fn sign(text: &str) -> Part {
    token(SyntaxKind::OTHER(1000), text)
}

fn word(text: &str) -> Part {
    token(SyntaxKind::TK_WORD, text)
}

fn space(text: &str) -> Part {
    token(SyntaxKind::TK_WHITESPACE, text)
}

fn add(builder: &mut rowan::GreenNodeBuilder, part: &Part) {
    match part {
        Part::Node(kind, parts) => {
            builder.start_node(rowan::SyntaxKind(kind.to_raw()));
            for part in parts {
                add(builder, part);
            }
            builder.finish_node();
        }
        Part::Token(kind, text) => builder.token(rowan::SyntaxKind(kind.to_raw()), text),
    }
}

/// The syntax tree with the given parts below its root; its text is `text`.
fn template(text: &str, parts: Vec<Part>) -> SyntaxTree {
    let mut builder = rowan::GreenNodeBuilder::new();
    add(&mut builder, &node(SyntaxKind::ROOT, parts));
    let tree = SyntaxTree::from_green(&builder.finish()).unwrap();
    assert_eq!(tree.text(0), text);
    tree
}


/// A Twig variable with blanks around its name.
fn twig_var(name: &str) -> Part {
    node(
        SyntaxKind::TWIG_VAR,
        vec![
            sign("{{"),
            node(
                SyntaxKind::TWIG_EXPRESSION,
                vec![node(
                    SyntaxKind::TWIG_LITERAL_NAME,
                    vec![space(" "), word(name)],
                )],
            ),
            space(" "),
            sign("}}"),
        ],
    )
}

fn starting(name: Part) -> Part {
    node(
        SyntaxKind::HTML_STARTING_TAG,
        vec![token(SyntaxKind::TK_LESS_THAN, "<"), name, sign(">")],
    )
}

fn ending(name: Part) -> Part {
    node(
        SyntaxKind::HTML_ENDING_TAG,
        vec![token(SyntaxKind::TK_LESS_THAN_SLASH, "</"), name, sign(">")],
    )
}

/// An element with both tags.
fn element(open: Part, close: Part) -> Part {
    node(
        SyntaxKind::HTML_TAG,
        vec![
            starting(open),
            node(SyntaxKind::BODY, vec![]),
            ending(close),
        ],
    )
}

/// An opening tag without its closing tag.
fn opening(name: Part) -> Part {
    node(
        SyntaxKind::HTML_TAG,
        vec![
            starting(name),
            node(SyntaxKind::BODY, vec![]),
            node(SyntaxKind::HTML_ENDING_TAG, vec![]),
        ],
    )
}

fn open(name: &str) -> Part {
    opening(word(name))
}

fn close(name: &str) -> Part {
    ending(word(name))
}

/// A condition that is a name after a blank.
fn condition(name: &str) -> Part {
    node(
        SyntaxKind::TWIG_EXPRESSION,
        vec![node(
            SyntaxKind::TWIG_LITERAL_NAME,
            vec![space(" "), word(name)],
        )],
    )
}

fn if_block(name: &str) -> Part {
    node(
        SyntaxKind::TWIG_IF_BLOCK,
        vec![sign("{% if"), condition(name), sign(" %}")],
    )
}

fn elseif_block(name: &str) -> Part {
    node(
        SyntaxKind::TWIG_ELSE_IF_BLOCK,
        vec![sign("{% elseif"), condition(name), sign(" %}")],
    )
}

fn else_block() -> Part {
    node(SyntaxKind::TWIG_ELSE_BLOCK, vec![sign("{% else %}")])
}

fn body(parts: Vec<Part>) -> Part {
    node(SyntaxKind::BODY, parts)
}

fn endif_block() -> Part {
    node(SyntaxKind::TWIG_ENDIF_BLOCK, vec![sign("{% endif %}")])
}

/// `{% if name %}..{% endif %}`
fn when(name: &str, parts: Vec<Part>) -> Part {
    node(
        SyntaxKind::TWIG_IF,
        vec![if_block(name), body(parts), endif_block()],
    )
}

/// `{% if name %}..{% else %}..{% endif %}`
fn either(name: &str, first: Vec<Part>, second: Vec<Part>) -> Part {
    node(
        SyntaxKind::TWIG_IF,
        vec![
            if_block(name),
            body(first),
            else_block(),
            body(second),
            endif_block(),
        ],
    )
}

fn block(parts: Vec<Part>) -> Part {
    node(SyntaxKind::TWIG_BLOCK, vec![body(parts)])
}

fn errors_of(text: &str, parts: Vec<Part>) -> Vec<ParseError> {
    validate(&template(text, parts), 0)
}

fn range(start: u32, end: u32) -> TextRange {
    TextRange { start, end }
}

fn assert_plain(error: &ParseError, range: TextRange, expected: &str, found: SyntaxKind) {
    assert_eq!(error.range, range);
    assert_eq!(error.expected, expected);
    assert_eq!(error.found, Some(found));
    assert_eq!(error.secondary, None);
    assert_eq!(error.message, None);
}

fn assert_mismatch(
    error: &ParseError,
    closing: (&str, TextRange),
    opening: (&str, TextRange),
    reason: &str,
) {
    assert_eq!(error.range, closing.1);
    assert_eq!(
        error.expected,
        format!("an opening <{}> under the same Twig conditions", closing.0)
    );
    assert_eq!(error.found, Some(SyntaxKind::TK_LESS_THAN_SLASH));
    assert_eq!(
        error.secondary,
        Some((opening.1, format!("opening <{}> is here", opening.0)))
    );
    assert_eq!(
        error.message,
        Some(format!(
            "closing </{}> does not match opening <{}>: {}",
            closing.0, opening.0, reason
        ))
    );
}

#[test]
fn tags_under_the_same_condition_match() {
    let errors = errors_of(
        "{% if a %}<div>{% endif %}x{% if a %}</div>{% endif %}",
        vec![
            when("a", vec![open("div")]),
            word("x"),
            when("a", vec![close("div")]),
        ],
    );
    assert!(errors.is_empty());
}

#[test]
fn layout_of_conditions_does_not_matter() {
    let spread = node(
        SyntaxKind::TWIG_IF,
        vec![
            node(
                SyntaxKind::TWIG_IF_BLOCK,
                vec![
                    sign("{% if"),
                    node(
                        SyntaxKind::TWIG_EXPRESSION,
                        vec![node(
                            SyntaxKind::TWIG_LITERAL_NAME,
                            vec![token(SyntaxKind::TK_LINE_BREAK, "\n"), space("  "), word("a")],
                        )],
                    ),
                    sign(" %}"),
                ],
            ),
            body(vec![close("div")]),
            endif_block(),
        ],
    );
    let errors = errors_of(
        "{% if a %}<div>{% endif %}{% if\n  a %}</div>{% endif %}",
        vec![when("a", vec![open("div")]), spread],
    );
    assert!(errors.is_empty());
}

#[test]
fn tags_under_different_conditions_do_not_match() {
    let errors = errors_of(
        "{% if a %}<div>{% endif %}{% if b %}</div>{% endif %}",
        vec![when("a", vec![open("div")]), when("b", vec![close("div")])],
    );
    assert_eq!(errors.len(), 1);
    assert_mismatch(
        &errors[0],
        ("div", range(38, 41)),
        ("div", range(11, 14)),
        "different Twig conditions",
    );
}

#[test]
fn opposite_branches_do_not_match() {
    let errors = errors_of(
        "{% if a %}<div>{% else %}</div>{% endif %}",
        vec![either("a", vec![open("div")], vec![close("div")])],
    );
    assert_eq!(errors.len(), 1);
    assert_mismatch(
        &errors[0],
        ("div", range(27, 30)),
        ("div", range(11, 14)),
        "different Twig conditions",
    );
}

#[test]
fn tags_in_different_scopes_match_without_conditions() {
    let errors = errors_of(
        "<div></div>",
        vec![block(vec![open("div")]), block(vec![close("div")])],
    );
    assert!(errors.is_empty());
}

#[test]
fn tags_in_different_scopes_do_not_match_under_conditions() {
    let errors = errors_of(
        "{% if a %}<div>{% endif %}{% if a %}</div>{% endif %}",
        vec![
            block(vec![when("a", vec![open("div")])]),
            block(vec![when("a", vec![close("div")])]),
        ],
    );
    assert_eq!(errors.len(), 1);
    assert_mismatch(
        &errors[0],
        ("div", range(38, 41)),
        ("div", range(11, 14)),
        "different Twig scopes",
    );
}

#[test]
fn dynamic_names_match_up_to_layout() {
    let tight = node(
        SyntaxKind::TWIG_VAR,
        vec![
            sign("{{"),
            node(
                SyntaxKind::TWIG_EXPRESSION,
                vec![node(SyntaxKind::TWIG_LITERAL_NAME, vec![word("tag")])],
            ),
            sign("}}"),
        ],
    );
    let errors = errors_of(
        "<{{ tag }}></{{tag}}>",
        vec![opening(twig_var("tag")), ending(tight)],
    );
    assert!(errors.is_empty());
}

#[test]
fn different_dynamic_names_do_not_match() {
    let errors = errors_of(
        "<{{ a }}></{{ b }}>",
        vec![opening(twig_var("a")), ending(twig_var("b"))],
    );
    assert_eq!(errors.len(), 1);
    assert_mismatch(
        &errors[0],
        ("{{ b }}", range(11, 18)),
        ("{{ a }}", range(1, 8)),
        "different tag-name expressions",
    );
}

#[test]
fn closing_tag_without_opening_tag() {
    let errors = errors_of("</div>", vec![close("div")]);
    assert_eq!(errors.len(), 1);
    assert_plain(
        &errors[0],
        range(2, 5),
        "an opening <div> under the same Twig conditions",
        SyntaxKind::TK_LESS_THAN_SLASH,
    );
}

#[test]
fn opening_tag_without_closing_tag() {
    let errors = errors_of("<div>", vec![open("div")]);
    assert_eq!(errors.len(), 1);
    assert_plain(
        &errors[0],
        range(1, 4),
        "a closing </div> under the same Twig conditions",
        SyntaxKind::TK_LESS_THAN,
    );
}

#[test]
fn other_names_are_not_held_against_each_other() {
    let errors = errors_of("<a></b>", vec![open("a"), close("b")]);
    assert_eq!(errors.len(), 2);
    assert_plain(
        &errors[0],
        range(5, 6),
        "an opening <b> under the same Twig conditions",
        SyntaxKind::TK_LESS_THAN_SLASH,
    );
    assert_plain(
        &errors[1],
        range(1, 2),
        "a closing </a> under the same Twig conditions",
        SyntaxKind::TK_LESS_THAN,
    );
}

#[test]
fn crossing_pairs_are_reported() {
    let errors = errors_of(
        "<a><b></a></b>",
        vec![open("a"), open("b"), close("a"), close("b")],
    );
    assert_eq!(errors.len(), 1);
    assert_plain(
        &errors[0],
        range(8, 9),
        "properly nested HTML tags under the same Twig conditions",
        SyntaxKind::TK_LESS_THAN_SLASH,
    );
}

#[test]
fn nested_pairs_are_not_reported() {
    let errors = errors_of(
        "<a><b></b></a>",
        vec![open("a"), open("b"), close("b"), close("a")],
    );
    assert!(errors.is_empty());
}

#[test]
fn exclusive_pairs_may_cross() {
    let errors = errors_of(
        "{% if c %}<a>{% else %}<b>{% endif %}{% if c %}</a>{% else %}</b>{% endif %}",
        vec![
            either("c", vec![open("a")], vec![open("b")]),
            either("c", vec![close("a")], vec![close("b")]),
        ],
    );
    assert!(errors.is_empty());
}

#[test]
fn pairs_that_can_be_shown_together_must_not_cross() {
    let errors = errors_of(
        "{% if c %}<a>{% endif %}{% if d %}<b>{% endif %}{% if c %}</a>{% endif %}{% if d %}</b>{% endif %}",
        vec![
            when("c", vec![open("a")]),
            when("d", vec![open("b")]),
            when("c", vec![close("a")]),
            when("d", vec![close("b")]),
        ],
    );
    assert_eq!(errors.len(), 1);
    assert_eq!(errors[0].range, range(60, 61));
}

#[test]
fn closing_tag_takes_the_last_opening_tag_that_matches() {
    let tree = template(
        "{% if c %}<a>{% endif %}<a></a>",
        vec![when("c", vec![open("a")]), open("a"), close("a")],
    );
    let errors = validate(&tree, 0);
    assert_eq!(errors.len(), 1);
    assert_plain(
        &errors[0],
        range(11, 12),
        "a closing </a> under the same Twig conditions",
        SyntaxKind::TK_LESS_THAN,
    );
}

#[test]
fn mismatch_takes_the_opening_tag_away() {
    // The second closing tag has nothing left to be held against.
    let errors = errors_of(
        "{% if c %}<a>{% endif %}</a></a>",
        vec![when("c", vec![open("a")]), close("a"), close("a")],
    );
    assert_eq!(errors.len(), 2);
    assert_mismatch(
        &errors[0],
        ("a", range(26, 27)),
        ("a", range(11, 12)),
        "different Twig conditions",
    );
    assert_plain(
        &errors[1],
        range(30, 31),
        "an opening <a> under the same Twig conditions",
        SyntaxKind::TK_LESS_THAN_SLASH,
    );
}

#[test]
fn elements_with_two_names_are_reported_first() {
    let errors = errors_of(
        "</x><{{ a }}></{{ b }}><a></b><c></c>",
        vec![
            close("x"),
            element(twig_var("a"), twig_var("b")),
            element(word("a"), word("b")),
            element(word("c"), word("c")),
        ],
    );
    assert_eq!(errors.len(), 3);
    assert_mismatch(
        &errors[0],
        ("{{ b }}", range(15, 22)),
        ("{{ a }}", range(5, 12)),
        "different tag-name expressions",
    );
    assert_mismatch(
        &errors[1],
        ("b", range(28, 29)),
        ("a", range(24, 25)),
        "different tag-name expressions",
    );
    assert_plain(
        &errors[2],
        range(2, 3),
        "an opening <x> under the same Twig conditions",
        SyntaxKind::TK_LESS_THAN_SLASH,
    );
}

#[test]
fn validation_starts_at_the_given_node() {
    let tree = template("</x></y>", vec![close("x"), block(vec![close("y")])]);
    assert_eq!(validate(&tree, 0).len(), 2);
    let inner = position(&tree, SyntaxKind::TWIG_BLOCK, 0);
    let errors = validate(&tree, inner);
    assert_eq!(errors.len(), 1);
    assert_eq!(errors[0].range, range(6, 7));
}

/// The position of the `k`-th node of a kind.
fn position(tree: &SyntaxTree, kind: SyntaxKind, k: usize) -> usize {
    (0..tree.len())
        .filter(|i| tree.is_node(*i) && tree.kind(*i) == kind)
        .nth(k)
        .unwrap()
}

#[test]
fn fragments_are_collected_in_order() {
    let tree = template(
        "<a>{% if c %}</b>{% endif %}<{{ d }}>",
        vec![
            open("a"),
            when("c", vec![close("b")]),
            opening(twig_var("d")),
        ],
    );
    let (fragments, errors) = collect_fragments(&tree, 0);
    assert!(errors.is_empty());
    let names: Vec<(&str, &str, bool)> = fragments
        .iter()
        .map(|f| (f.name.as_str(), f.key.as_str(), f.opening))
        .collect();
    assert_eq!(
        names,
        vec![
            ("a", "a", true),
            ("b", "b", false),
            ("{{ d }}", "\0twig:d\0", true)
        ]
    );
    assert_eq!(fragments[0].range, range(1, 2));
    assert_eq!(fragments[1].range, range(15, 16));
    assert_eq!(fragments[2].range, range(29, 36));
    assert!(fragments[0].context.conditions.is_empty());
    assert_eq!(
        fragments[1].context.conditions,
        vec![("c".to_string(), true)]
    );
}

#[test]
fn names_of_tags() {
    let tree = template(
        "</a></twig:B></{{ x }}></></{{}}>",
        vec![
            close("a"),
            ending(token(SyntaxKind::TK_TWIG_COMPONENT_NAME, "twig:B")),
            ending(twig_var("x")),
            ending(sign("")),
            ending(node(SyntaxKind::TWIG_VAR, vec![sign("{{"), sign("}}")])),
        ],
    );
    let name = |k: usize| tag_name(&tree, position(&tree, SyntaxKind::HTML_ENDING_TAG, k));
    assert_eq!(name(0), Some(("a".into(), "a".into(), range(2, 3))));
    assert_eq!(
        name(1),
        Some(("twig:B".into(), "twig:B".into(), range(6, 12)))
    );
    assert_eq!(
        name(2),
        Some(("{{ x }}".into(), "\0twig:x\0".into(), range(15, 22)))
    );
    assert_eq!(name(3), None);
    assert_eq!(name(4), None);
}

#[test]
fn keys_separate_their_tokens() {
    let var = node(
        SyntaxKind::TWIG_VAR,
        vec![node(
            SyntaxKind::TWIG_EXPRESSION,
            vec![
                word("a"),
                space(" "),
                sign("~"),
                token(SyntaxKind::TK_LINE_BREAK, "\n"),
                word("b"),
            ],
        )],
    );
    let tree = template("</a ~\nb>", vec![ending(var)]);
    let (_, key, _) = tag_name(&tree, 1).unwrap();
    assert_eq!(key, "\0twig:a\0~\0b\0");
}

#[test]
fn contexts_list_the_innermost_first() {
    let tree = template(
        "{% if a %}{% if b %}{% elseif c %}</x>{% else %}</y>{% endif %}{% endif %}",
        vec![node(
            SyntaxKind::TWIG_FOR,
            vec![when(
                "a",
                vec![block(vec![node(
                    SyntaxKind::TWIG_IF,
                    vec![
                        if_block("b"),
                        body(vec![]),
                        elseif_block("c"),
                        body(vec![close("x")]),
                        else_block(),
                        body(vec![close("y")]),
                        endif_block(),
                    ],
                )])],
            )],
        )],
    );
    let x = branch_context(&tree, position(&tree, SyntaxKind::HTML_ENDING_TAG, 0));
    let y = branch_context(&tree, position(&tree, SyntaxKind::HTML_ENDING_TAG, 1));
    let named = |names: &[(&str, bool)]| -> Vec<(String, bool)> {
        names.iter().map(|(n, p)| (n.to_string(), *p)).collect()
    };
    assert_eq!(x.conditions, named(&[("b", false), ("c", true), ("a", true)]));
    assert_eq!(
        y.conditions,
        named(&[("b", false), ("c", false), ("a", true)])
    );
    assert_eq!(
        x.scopes,
        vec![
            (SyntaxKind::TWIG_BLOCK, range(10, 63)),
            (SyntaxKind::TWIG_FOR, range(0, 74)),
        ]
    );
    assert_eq!(y.scopes, x.scopes);
    assert!(mutually_exclusive(&x, &y));
    assert!(mutually_exclusive(&y, &x));
    assert!(!mutually_exclusive(&x, &x));
}

#[test]
fn header_without_condition_has_an_empty_one() {
    let tree = template(
        "{% if %}</x>",
        vec![node(
            SyntaxKind::TWIG_IF,
            vec![
                node(SyntaxKind::TWIG_IF_BLOCK, vec![sign("{% if %}")]),
                body(vec![close("x")]),
            ],
        )],
    );
    let x = branch_context(&tree, position(&tree, SyntaxKind::HTML_ENDING_TAG, 0));
    assert_eq!(x.conditions, vec![(String::new(), true)]);
    assert!(x.scopes.is_empty());
}

#[test]
fn header_itself_is_under_all_conditions() {
    // A node in a header is below no body, so all headers count for it.
    let tree = template(
        "{% if a %}{% elseif b %}",
        vec![node(
            SyntaxKind::TWIG_IF,
            vec![if_block("a"), body(vec![]), elseif_block("b")],
        )],
    );
    let header = position(&tree, SyntaxKind::TWIG_IF_BLOCK, 0);
    assert_eq!(
        branch_context(&tree, header).conditions,
        vec![("a".to_string(), false), ("b".to_string(), true)]
    );
}

#[test]
fn kinds_of_scopes() {
    let scopes = [
        SyntaxKind::TWIG_BLOCK,
        SyntaxKind::TWIG_SET,
        SyntaxKind::TWIG_FOR,
        SyntaxKind::TWIG_APPLY,
        SyntaxKind::TWIG_AUTOESCAPE,
        SyntaxKind::TWIG_EMBED,
        SyntaxKind::TWIG_SANDBOX,
        SyntaxKind::TWIG_VERBATIM,
        SyntaxKind::TWIG_MACRO,
        SyntaxKind::TWIG_WITH,
        SyntaxKind::TWIG_CACHE,
        SyntaxKind::TWIG_COMPONENT,
        SyntaxKind::TWIG_TRANS,
        SyntaxKind::SHOPWARE_SILENT_FEATURE_CALL,
    ];
    for raw in 0..=u16::MAX {
        let kind = SyntaxKind::from_raw(raw);
        assert_eq!(is_twig_scope(kind), scopes.contains(&kind));
    }
}

fn context(conditions: &[(&str, bool)]) -> Context {
    Context {
        conditions: conditions.iter().map(|(n, p)| (n.to_string(), *p)).collect(),
        scopes: vec![],
    }
}

#[test]
fn contexts_exclude_each_other_by_one_condition() {
    let a = context(&[("p", true), ("q", false)]);
    assert!(mutually_exclusive(&a, &context(&[("r", true), ("q", true)])));
    assert!(mutually_exclusive(&a, &context(&[("p", false)])));
    assert!(!mutually_exclusive(&a, &context(&[("p", true)])));
    assert!(!mutually_exclusive(&a, &context(&[("r", false)])));
    assert!(!mutually_exclusive(&a, &context(&[])));
    assert!(!mutually_exclusive(&context(&[]), &a));
}

#[test]
fn errors_name_what_was_found() {
    assert_plain(
        &parse_error(range(1, 2), "something".to_string(), true),
        range(1, 2),
        "something",
        SyntaxKind::TK_LESS_THAN,
    );
    assert_plain(
        &parse_error(range(3, 5), "anything".to_string(), false),
        range(3, 5),
        "anything",
        SyntaxKind::TK_LESS_THAN_SLASH,
    );
}

#[test]
fn mismatches_name_both_tags() {
    let fragment = |name: &str, conditions: &[(&str, bool)], start: u32, opening: bool| Fragment {
        name: name.to_string(),
        key: name.to_string(),
        context: context(conditions),
        range: range(start, start + 1),
        opening,
    };
    let a = fragment("a", &[("p", true)], 1, true);
    let same = fragment("a", &[("p", true)], 5, false);
    let other = fragment("a", &[("p", false)], 5, false);
    let b = fragment("b", &[("p", true)], 5, false);
    assert_mismatch(
        &mismatched_fragment_error(&a, &same),
        ("a", range(5, 6)),
        ("a", range(1, 2)),
        "different Twig scopes",
    );
    assert_mismatch(
        &mismatched_fragment_error(&a, &other),
        ("a", range(5, 6)),
        ("a", range(1, 2)),
        "different Twig conditions",
    );
    assert_mismatch(
        &mismatched_fragment_error(&a, &b),
        ("b", range(5, 6)),
        ("a", range(1, 2)),
        "different tag-name expressions",
    );
}

/// Whether the tags are properly nested when only those of the fragments are rendered whose
/// conditions are as `values` says.
fn is_nested(fragments: &[Fragment], values: &[(&str, bool)]) -> bool {
    let mut stack: Vec<&str> = Vec::new();
    for fragment in fragments {
        let shown = fragment
            .context
            .conditions
            .iter()
            .all(|(text, holds)| values.contains(&(text.as_str(), *holds)));
        if !shown {
            continue;
        }
        if fragment.opening {
            stack.push(&fragment.key);
        } else if stack.pop() != Some(fragment.key.as_str()) {
            return false;
        }
    }
    stack.is_empty()
}

#[test]
fn templates_without_errors_are_nested_under_all_conditions() {
    let tree = template(
        "{% if c %}<a>{% else %}<b>{% endif %}<i>{% if d %}<u>{% endif %}{% if d %}</u>{% endif %}</i>{% if c %}</a>{% else %}</b>{% endif %}",
        vec![
            either("c", vec![open("a")], vec![open("b")]),
            open("i"),
            when("d", vec![open("u")]),
            when("d", vec![close("u")]),
            close("i"),
            either("c", vec![close("a")], vec![close("b")]),
        ],
    );
    assert!(validate(&tree, 0).is_empty());
    let (fragments, _) = collect_fragments(&tree, 0);
    assert_eq!(fragments.len(), 8);
    for c in [false, true] {
        for d in [false, true] {
            assert!(is_nested(&fragments, &[("c", c), ("d", d)]));
        }
    }
}

#[test]
fn tags_without_conditions_are_accepted_iff_nested() {
    // All sequences of four tags of two names.
    for code in 0..256usize {
        let tags: Vec<(bool, &str)> = (0..4)
            .map(|i| {
                let digit = code >> (2 * i) & 3;
                (digit & 1 == 0, if digit & 2 == 0 { "a" } else { "b" })
            })
            .collect();
        let mut text = String::new();
        let mut parts = Vec::new();
        for (opens, name) in &tags {
            if *opens {
                text.push_str(&format!("<{name}>"));
                parts.push(open(name));
            } else {
                text.push_str(&format!("</{name}>"));
                parts.push(close(name));
            }
        }
        let tree = template(&text, parts);
        let (fragments, _) = collect_fragments(&tree, 0);
        assert_eq!(
            validate(&tree, 0).is_empty(),
            is_nested(&fragments, &[]),
            "{text}"
        );
    }
}

#[test]
fn conditions_are_those_of_the_first_body_that_a_body_is_taken_for() {
    let tree = template(
        "{% if a %}",
        vec![node(
            SyntaxKind::TWIG_IF,
            vec![
                if_block("a"),
                body(vec![]),
                node(SyntaxKind::TWIG_ELSE_BLOCK, vec![]),
                body(vec![]),
            ],
        )],
    );
    let bodies = [
        position(&tree, SyntaxKind::BODY, 0),
        position(&tree, SyntaxKind::BODY, 1),
    ];
    assert!(tree.same_node(bodies[0], bodies[1]));
    for body in bodies {
        assert_eq!(
            branch_context(&tree, body).conditions,
            vec![("a".to_string(), true)]
        );
    }
}

#[test]
fn keys_tell_empty_tokens_apart() {
    let key = |words: &[&str]| {
        let tokens = words.iter().map(|w| sign(w)).collect();
        let var = node(
            SyntaxKind::TWIG_VAR,
            vec![node(SyntaxKind::TWIG_EXPRESSION, tokens)],
        );
        let text = format!("</{}>", words.concat());
        tag_name(&template(&text, vec![ending(var)]), 1).unwrap().1
    };
    assert_ne!(key(&["a", ""]), key(&["a"]));
    assert_ne!(key(&["", ""]), key(&[""]));
    assert_ne!(key(&["", "a"]), key(&["a", ""]));
    // The one exception.
    assert_eq!(key(&[]), key(&[""]));
}
