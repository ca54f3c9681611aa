use ludtwig::html_duplicate_id::{in_different_if_branches, RuleHtmlDuplicateId};
use ludtwig::kind::SyntaxKind;
use ludtwig::rule::{
    CheckResult, Config, FeatureFlags, RuleRunContext, Severity, TwigConfig,
};
use ludtwig::tree::{SyntaxTree, TextRange};

enum Part {
    Node(SyntaxKind, Vec<Part>),
    Token(SyntaxKind, String),
}

fn node(kind: SyntaxKind, parts: Vec<Part>) -> Part {
    Part::Node(kind, parts)
}

fn token(kind: SyntaxKind, text: &str) -> Part {
    Part::Token(kind, text.to_string())
}

/// A token of a kind without a name.
fn sign(text: &str) -> Part {
    token(SyntaxKind::OTHER(1000), text)
}

fn word(text: &str) -> Part {
    token(SyntaxKind::TK_WORD, text)
}

fn space(text: &str) -> Part {
    token(SyntaxKind::TK_WHITESPACE, text)
}

fn line_break() -> Part {
    token(SyntaxKind::TK_LINE_BREAK, "\n")
}

fn add(builder: &mut rowan::GreenNodeBuilder, part: &Part) {
    match part {
        Part::Node(kind, parts) => {
            builder.start_node(rowan::SyntaxKind(kind.to_raw()));
            for part in parts {
                add(builder, part);
            }
            builder.finish_node();
        }
        Part::Token(kind, text) => builder.token(rowan::SyntaxKind(kind.to_raw()), text),
    }
}

/// The syntax tree with the given parts below its root; its text is `text`.
fn template(text: &str, parts: Vec<Part>) -> SyntaxTree {
    let mut builder = rowan::GreenNodeBuilder::new();
    add(&mut builder, &node(SyntaxKind::ROOT, parts));
    let tree = SyntaxTree::from_green(&builder.finish()).unwrap();
    assert_eq!(tree.text(0), text);
    tree
}

fn string_of(inner: Vec<Part>) -> Part {
    node(
        SyntaxKind::HTML_STRING,
        vec![
            sign("\""),
            node(SyntaxKind::HTML_STRING_INNER, inner),
            sign("\""),
        ],
    )
}

fn attribute(name: &str, inner: Vec<Part>) -> Part {
    node(
        SyntaxKind::HTML_ATTRIBUTE,
        vec![space(" "), word(name), sign("="), string_of(inner)],
    )
}

/// An HTML element after `lead`, with one attribute or none.
fn element(lead: Vec<Part>, name: &str, attributes: Vec<Part>, body: Vec<Part>) -> Part {
    let mut starting = lead;
    starting.push(token(SyntaxKind::TK_LESS_THAN, "<"));
    starting.push(word(name));
    starting.push(node(SyntaxKind::HTML_ATTRIBUTE_LIST, attributes));
    starting.push(sign(">"));
    node(
        SyntaxKind::HTML_TAG,
        vec![
            node(SyntaxKind::HTML_STARTING_TAG, starting),
            node(SyntaxKind::BODY, body),
            node(
                SyntaxKind::HTML_ENDING_TAG,
                vec![
                    token(SyntaxKind::TK_LESS_THAN_SLASH, "</"),
                    word(name),
                    sign(">"),
                ],
            ),
        ],
    )
}

fn with_id(lead: Vec<Part>, name: &str, id: &str) -> Part {
    element(lead, name, vec![attribute("id", vec![word(id)])], vec![])
}

fn twig_var(name: &str) -> Part {
    node(
        SyntaxKind::TWIG_VAR,
        vec![
            sign("{{"),
            node(
                SyntaxKind::TWIG_EXPRESSION,
                vec![node(
                    SyntaxKind::TWIG_LITERAL_NAME,
                    vec![space(" "), word(name)],
                )],
            ),
            space(" "),
            sign("}}"),
        ],
    )
}

/// An ignore directive after `lead`, for the given rule or for all.
fn directive(lead: Vec<Part>, rule: Option<&str>) -> Part {
    let mut parts = lead;
    parts.push(sign("{#"));
    parts.push(space(" "));
    parts.push(sign("ludtwig-ignore"));
    if let Some(rule) = rule {
        parts.push(node(
            SyntaxKind::LUDTWIG_DIRECTIVE_RULE_LIST,
            vec![space(" "), word(rule)],
        ));
    }
    parts.push(space(" "));
    parts.push(sign("#}"));
    node(SyntaxKind::LUDTWIG_DIRECTIVE_IGNORE, parts)
}

fn context() -> RuleRunContext {
    RuleRunContext::new(Config {
        twig: TwigConfig {
            deprecated_feature_flags: FeatureFlags::new(),
        },
    })
}

fn check(tree: &SyntaxTree) -> Option<Vec<CheckResult>> {
    RuleHtmlDuplicateId.check_root(tree, 0, &context())
}

/// The range of `len` bytes from a line and a column on, both counted from one.
fn at(text: &str, line: usize, column: usize, len: usize) -> TextRange {
    let before: usize = text.split_inclusive('\n').take(line - 1).map(str::len).sum();
    let start = before + column - 1;
    TextRange {
        start: start as u32,
        end: (start + len) as u32,
    }
}

fn assert_duplicate(result: &CheckResult, id: &str, here: TextRange, first: TextRange) {
    assert_eq!(result.rule_name, "html-duplicate-id");
    assert_eq!(result.severity, Severity::Warning);
    assert_eq!(result.message, "duplicate HTML element id attribute value");
    let primary = result.primary.as_ref().unwrap();
    assert_eq!(primary.range, here);
    assert_eq!(primary.message, format!("duplicate id '{id}'"));
    assert_eq!(result.secondary.len(), 1);
    assert_eq!(result.secondary[0].range, first);
    assert_eq!(result.secondary[0].message, "first defined here");
}

#[test]
fn rule_reports_duplicate_ids() {
    let text = r#"<div id="foo"></div>
<span id="bar"></span>
<p id="foo"></p>"#;
    let tree = template(
        text,
        vec![
            with_id(vec![], "div", "foo"),
            with_id(vec![line_break()], "span", "bar"),
            with_id(vec![line_break()], "p", "foo"),
        ],
    );
    let results = check(&tree).unwrap();
    assert_eq!(results.len(), 1);
    assert_duplicate(&results[0], "foo", at(text, 3, 8, 3), at(text, 1, 10, 3));
}

#[test]
fn rule_does_not_report_unique_ids() {
    let tree = template(
        r#"<div id="foo"></div>
<span id="bar"></span>
<p id="baz"></p>"#,
        vec![
            with_id(vec![], "div", "foo"),
            with_id(vec![line_break()], "span", "bar"),
            with_id(vec![line_break()], "p", "baz"),
        ],
    );
    assert!(check(&tree).is_none());
}

fn feature_call(flag: &str) -> Part {
    node(
        SyntaxKind::TWIG_EXPRESSION,
        vec![node(
            SyntaxKind::TWIG_FUNCTION_CALL,
            vec![
                node(
                    SyntaxKind::TWIG_OPERAND,
                    vec![node(
                        SyntaxKind::TWIG_LITERAL_NAME,
                        vec![space(" "), word("feature")],
                    )],
                ),
                node(
                    SyntaxKind::TWIG_ARGUMENTS,
                    vec![
                        sign("("),
                        node(
                            SyntaxKind::TWIG_EXPRESSION,
                            vec![node(
                                SyntaxKind::TWIG_LITERAL_STRING,
                                vec![
                                    sign("'"),
                                    node(SyntaxKind::TWIG_LITERAL_STRING_INNER, vec![word(flag)]),
                                    sign("'"),
                                ],
                            )],
                        ),
                        sign(")"),
                    ],
                ),
            ],
        )],
    )
}

fn if_block(expression: Part) -> Part {
    node(
        SyntaxKind::TWIG_IF_BLOCK,
        vec![sign("{% if"), expression, space(" "), sign("%}")],
    )
}

fn else_block() -> Part {
    node(SyntaxKind::TWIG_ELSE_BLOCK, vec![sign("{% else %}")])
}

fn endif_block() -> Part {
    node(SyntaxKind::TWIG_ENDIF_BLOCK, vec![sign("{% endif %}")])
}

/// An `if` on the flag `v6.8.0.0` with the given two bodies.
fn if_else(first: Vec<Part>, second: Vec<Part>) -> Part {
    node(
        SyntaxKind::TWIG_IF,
        vec![
            if_block(feature_call("v6.8.0.0")),
            node(SyntaxKind::BODY, first),
            else_block(),
            node(SyntaxKind::BODY, second),
            endif_block(),
        ],
    )
}

#[test]
fn rule_does_not_report_ids_in_exclusive_if_branches() {
    let tree = template(
        r#"{% if feature('v6.8.0.0') %}<ul id="footerColumns"></ul>{% else %}<div id="footerColumns"></div>{% endif %}"#,
        vec![if_else(
            vec![with_id(vec![], "ul", "footerColumns")],
            vec![with_id(vec![], "div", "footerColumns")],
        )],
    );
    assert!(check(&tree).is_none());
}

#[test]
fn rule_does_not_report_dynamic_ids() {
    let tree = template(
        r#"<div id="item-{{ id }}"></div>
<span id="item-{{ id }}"></span>"#,
        vec![
            element(
                vec![],
                "div",
                vec![attribute("id", vec![word("item-"), twig_var("id")])],
                vec![],
            ),
            element(
                vec![line_break()],
                "span",
                vec![attribute("id", vec![word("item-"), twig_var("id")])],
                vec![],
            ),
        ],
    );
    assert!(check(&tree).is_none());
}

#[test]
fn rule_ignores_with_specific_rule_directive() {
    let tree = template(
        r#"<div id="foo"></div>
{# ludtwig-ignore html-duplicate-id #}
<p id="foo"></p>"#,
        vec![
            with_id(vec![], "div", "foo"),
            directive(vec![line_break()], Some("html-duplicate-id")),
            with_id(vec![line_break()], "p", "foo"),
        ],
    );
    assert!(check(&tree).is_none());
}

#[test]
fn rule_ignores_with_blanket_directive() {
    let tree = template(
        r#"<div id="foo"></div>
{# ludtwig-ignore #}
<p id="foo"></p>"#,
        vec![
            with_id(vec![], "div", "foo"),
            directive(vec![line_break()], None),
            with_id(vec![line_break()], "p", "foo"),
        ],
    );
    assert!(check(&tree).is_none());
}

#[test]
fn rule_still_reports_after_ignore_directive_scope() {
    let text = r#"<div id="foo"></div>
<div>
    {# ludtwig-ignore html-duplicate-id #}
    <span id="foo"></span>
</div>
<p id="foo"></p>"#;
    let tree = template(
        text,
        vec![
            with_id(vec![], "div", "foo"),
            element(
                vec![line_break()],
                "div",
                vec![],
                vec![
                    directive(
                        vec![line_break(), space("    ")],
                        Some("html-duplicate-id"),
                    ),
                    with_id(vec![line_break(), space("    ")], "span", "foo"),
                    line_break(),
                ],
            ),
            with_id(vec![line_break()], "p", "foo"),
        ],
    );
    let results = check(&tree).unwrap();
    assert_eq!(results.len(), 1);
    assert_duplicate(&results[0], "foo", at(text, 6, 8, 3), at(text, 1, 10, 3));
}

#[test]
fn rule_ignores_only_targeted_rule() {
    let text = r#"<div id="foo"></div>
{# ludtwig-ignore some-other-rule #}
<p id="foo"></p>"#;
    let tree = template(
        text,
        vec![
            with_id(vec![], "div", "foo"),
            directive(vec![line_break()], Some("some-other-rule")),
            with_id(vec![line_break()], "p", "foo"),
        ],
    );
    let results = check(&tree).unwrap();
    assert_eq!(results.len(), 1);
    assert_duplicate(&results[0], "foo", at(text, 3, 8, 3), at(text, 1, 10, 3));
}

#[test]
fn rule_reports_multiple_duplicates() {
    let text = r#"<div id="foo"></div>
<span id="foo"></span>
<p id="foo"></p>"#;
    let tree = template(
        text,
        vec![
            with_id(vec![], "div", "foo"),
            with_id(vec![line_break()], "span", "foo"),
            with_id(vec![line_break()], "p", "foo"),
        ],
    );
    let results = check(&tree).unwrap();
    assert_eq!(results.len(), 2);
    assert_duplicate(&results[0], "foo", at(text, 2, 11, 3), at(text, 1, 10, 3));
    assert_duplicate(&results[1], "foo", at(text, 3, 8, 3), at(text, 1, 10, 3));
}

#[test]
fn rule_has_its_name() {
    assert_eq!(RuleHtmlDuplicateId.name(), "html-duplicate-id");
}

#[test]
fn ids_in_one_branch_are_reported() {
    let text = concat_text(&[
        "{% if feature('v6.8.0.0') %}",
        r#"<a id="x"></a><b id="x"></b>"#,
        "{% else %}{% endif %}",
    ]);
    let tree = template(
        &text,
        vec![if_else(
            vec![with_id(vec![], "a", "x"), with_id(vec![], "b", "x")],
            vec![],
        )],
    );
    let results = check(&tree).unwrap();
    assert_eq!(results.len(), 1);
    assert_duplicate(&results[0], "x", at(&text, 1, 50, 1), at(&text, 1, 36, 1));
}

fn concat_text(parts: &[&str]) -> String {
    parts.concat()
}

/// The position of the `k`-th id attribute.
fn id_attribute(tree: &SyntaxTree, k: usize) -> usize {
    (0..tree.len())
        .filter(|i| tree.kind(*i) == SyntaxKind::HTML_ATTRIBUTE)
        .nth(k)
        .unwrap()
}

#[test]
fn id_after_branches_clashes_with_the_first_one() {
    let text = concat_text(&[
        "{% if feature('v6.8.0.0') %}",
        r#"<a id="x"></a>"#,
        "{% else %}",
        r#"<b id="x"></b>"#,
        "{% endif %}",
        r#"<c id="x"></c>"#,
    ]);
    let tree = template(
        &text,
        vec![
            if_else(
                vec![with_id(vec![], "a", "x")],
                vec![with_id(vec![], "b", "x")],
            ),
            with_id(vec![], "c", "x"),
        ],
    );
    let results = check(&tree).unwrap();
    assert_eq!(results.len(), 1);
    assert_duplicate(&results[0], "x", at(&text, 1, 85, 1), at(&text, 1, 36, 1));

    let (a, b, c) = (
        id_attribute(&tree, 0),
        id_attribute(&tree, 1),
        id_attribute(&tree, 2),
    );
    assert!(in_different_if_branches(&tree, a, b));
    assert!(in_different_if_branches(&tree, b, a));
    assert!(!in_different_if_branches(&tree, a, a));
    assert!(!in_different_if_branches(&tree, a, c));
    assert!(!in_different_if_branches(&tree, c, b));
}

#[test]
fn clash_skips_ids_of_other_branches() {
    // The second branch holds the id twice: the clash is with the one of the same branch.
    let text = concat_text(&[
        "{% if feature('v6.8.0.0') %}",
        r#"<a id="x"></a>"#,
        "{% else %}",
        r#"<b id="x"></b><c id="x"></c>"#,
        "{% endif %}",
    ]);
    let tree = template(
        &text,
        vec![if_else(
            vec![with_id(vec![], "a", "x")],
            vec![with_id(vec![], "b", "x"), with_id(vec![], "c", "x")],
        )],
    );
    let results = check(&tree).unwrap();
    assert_eq!(results.len(), 1);
    assert_duplicate(&results[0], "x", at(&text, 1, 74, 1), at(&text, 1, 60, 1));
}

#[test]
fn nested_branches_are_apart_by_the_outer_if() {
    let text = concat_text(&[
        "{% if feature('v6.8.0.0') %}",
        "{% if feature('v6.8.0.0') %}",
        r#"<a id="x"></a>"#,
        "{% else %}{% endif %}",
        "{% else %}",
        r#"<b id="x"></b>"#,
        "{% endif %}",
    ]);
    let tree = template(
        &text,
        vec![if_else(
            vec![if_else(vec![with_id(vec![], "a", "x")], vec![])],
            vec![with_id(vec![], "b", "x")],
        )],
    );
    assert!(check(&tree).is_none());
    assert!(in_different_if_branches(
        &tree,
        id_attribute(&tree, 0),
        id_attribute(&tree, 1)
    ));
}

#[test]
fn errors_are_skipped() {
    let tree = template(
        r#"<a id="x"></a><b id="x"></b>"#,
        vec![
            with_id(vec![], "a", "x"),
            node(SyntaxKind::ERROR, vec![with_id(vec![], "b", "x")]),
        ],
    );
    assert!(check(&tree).is_none());
}

#[test]
fn empty_ids_and_other_attributes_do_not_count() {
    let tree = template(
        r#"<a id=""></a><b id=""></b><c class="x"></c><d class="x"></d>"#,
        vec![
            element(vec![], "a", vec![attribute("id", vec![])], vec![]),
            element(vec![], "b", vec![attribute("id", vec![])], vec![]),
            element(vec![], "c", vec![attribute("class", vec![word("x")])], vec![]),
            element(vec![], "d", vec![attribute("class", vec![word("x")])], vec![]),
        ],
    );
    assert!(check(&tree).is_none());
}

#[test]
fn attributes_without_value_do_not_count() {
    let bare = |name: &str| {
        element(
            vec![],
            name,
            vec![node(
                SyntaxKind::HTML_ATTRIBUTE,
                vec![space(" "), word("id")],
            )],
            vec![],
        )
    };
    let tree = template("<a id></a><b id></b>", vec![bare("a"), bare("b")]);
    assert!(check(&tree).is_none());
}

#[test]
fn id_text_covers_all_tokens() {
    let text = r#"<a id="x y"></a><b id="x y"></b><c id="x z"></c>"#;
    let named = |name: &str, last: &str| {
        element(
            vec![],
            name,
            vec![attribute("id", vec![word("x"), space(" "), word(last)])],
            vec![],
        )
    };
    let tree = template(text, vec![named("a", "y"), named("b", "y"), named("c", "z")]);
    let results = check(&tree).unwrap();
    assert_eq!(results.len(), 1);
    assert_duplicate(&results[0], "x y", at(text, 1, 24, 3), at(text, 1, 8, 3));
}

#[test]
fn ignored_ids_are_not_compared_later() {
    // The ignored id comes first: the two others still are one definition and one duplicate.
    let text = concat_text(&[
        "{# ludtwig-ignore #}",
        r#"<a id="x"></a><b id="x"></b><c id="x"></c>"#,
    ]);
    let tree = template(
        &text,
        vec![
            directive(vec![], None),
            with_id(vec![], "a", "x"),
            with_id(vec![], "b", "x"),
            with_id(vec![], "c", "x"),
        ],
    );
    let results = check(&tree).unwrap();
    assert_eq!(results.len(), 1);
    assert_duplicate(&results[0], "x", at(&text, 1, 56, 1), at(&text, 1, 42, 1));
}

#[test]
fn check_starts_at_the_given_node() {
    let tree = template(
        r#"<a id="x"></a><div><b id="x"></b></div>"#,
        vec![
            with_id(vec![], "a", "x"),
            element(vec![], "div", vec![], vec![with_id(vec![], "b", "x")]),
        ],
    );
    assert_eq!(check(&tree).unwrap().len(), 1);
    let bodies: Vec<usize> = (0..tree.len())
        .filter(|i| tree.kind(*i) == SyntaxKind::BODY)
        .collect();
    let inner = bodies[1];
    assert!(RuleHtmlDuplicateId.check_root(&tree, inner, &context()).is_none());
}

#[test]
fn branches_without_text_are_not_apart() {
    // Both bodies are one node at one place, so the attributes are in the same branch.
    let attribute = || node(SyntaxKind::HTML_ATTRIBUTE, vec![]);
    let tree = template(
        "",
        vec![node(
            SyntaxKind::TWIG_IF,
            vec![
                node(SyntaxKind::BODY, vec![attribute()]),
                node(SyntaxKind::BODY, vec![attribute()]),
            ],
        )],
    );
    assert!(!in_different_if_branches(
        &tree,
        id_attribute(&tree, 0),
        id_attribute(&tree, 1)
    ));
}
