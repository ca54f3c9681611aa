use ludtwig::kind::SyntaxKind;
use ludtwig::rule::{
    CheckResult, Config, FeatureFlags, RuleRunContext, Severity, TwigConfig,
};
use ludtwig::tree::{SyntaxTree, TextRange};
use ludtwig::twig_deprecated_feature_guard::{
    condition_truth, deprecation_tag, excludes_enabled_flag, is_guarded,
    RuleTwigDeprecatedFeatureGuard, Truth,
};

enum Part {
    Node(SyntaxKind, Vec<Part>),
    Token(SyntaxKind, String),
}

fn node(kind: SyntaxKind, parts: Vec<Part>) -> Part {
    Part::Node(kind, parts)
}

fn token(kind: SyntaxKind, text: &str) -> Part {
    Part::Token(kind, text.to_string())
}

/// A token of a kind without a name.
fn sign(text: &str) -> Part {
    token(SyntaxKind::OTHER(1000), text)
}

fn word(text: &str) -> Part {
    token(SyntaxKind::TK_WORD, text)
}

fn space(text: &str) -> Part {
    token(SyntaxKind::TK_WHITESPACE, text)
}

fn add(builder: &mut rowan::GreenNodeBuilder, part: &Part) {
    match part {
        Part::Node(kind, parts) => {
            builder.start_node(rowan::SyntaxKind(kind.to_raw()));
            for part in parts {
                add(builder, part);
            }
            builder.finish_node();
        }
        Part::Token(kind, text) => builder.token(rowan::SyntaxKind(kind.to_raw()), text),
    }
}

/// The syntax tree with the given parts below its root; its text is `text`.
fn template(text: &str, parts: Vec<Part>) -> SyntaxTree {
    let mut builder = rowan::GreenNodeBuilder::new();
    add(&mut builder, &node(SyntaxKind::ROOT, parts));
    let tree = SyntaxTree::from_green(&builder.finish()).unwrap();
    assert_eq!(tree.text(0), text);
    tree
}

/// The range of `len` bytes from a line and a column on, both counted from one.
fn at(text: &str, line: usize, column: usize, len: usize) -> TextRange {
    let before: usize = text.split_inclusive('\n').take(line - 1).map(str::len).sum();
    let start = before + column - 1;
    TextRange {
        start: start as u32,
        end: (start + len) as u32,
    }
}


fn expression(inner: Part) -> Part {
    node(SyntaxKind::TWIG_EXPRESSION, vec![inner])
}

fn plain_string(text: &str) -> Part {
    node(
        SyntaxKind::TWIG_LITERAL_STRING,
        vec![
            sign("'"),
            node(SyntaxKind::TWIG_LITERAL_STRING_INNER, vec![word(text)]),
            sign("'"),
        ],
    )
}

/// A call after a blank.
fn call(function: &str, arguments: Vec<Part>) -> Part {
    let mut parts = vec![sign("(")];
    parts.extend(arguments);
    parts.push(sign(")"));
    node(
        SyntaxKind::TWIG_FUNCTION_CALL,
        vec![
            node(
                SyntaxKind::TWIG_OPERAND,
                vec![node(
                    SyntaxKind::TWIG_LITERAL_NAME,
                    vec![space(" "), word(function)],
                )],
            ),
            node(SyntaxKind::TWIG_ARGUMENTS, parts),
        ],
    )
}

fn feature(flag: &str) -> Part {
    call("feature", vec![expression(plain_string(flag))])
}

/// A name after a blank.
fn name(text: &str) -> Part {
    node(SyntaxKind::TWIG_LITERAL_NAME, vec![space(" "), word(text)])
}

/// A boolean literal after a blank.
fn boolean(text: &str) -> Part {
    node(SyntaxKind::TWIG_LITERAL_BOOLEAN, vec![space(" "), sign(text)])
}

fn not(operand: Part) -> Part {
    node(
        SyntaxKind::TWIG_UNARY_EXPRESSION,
        vec![space(" "), token(SyntaxKind::TK_NOT, "not"), expression(operand)],
    )
}

fn binary(lhs: Part, kind: SyntaxKind, operator: &str, rhs: Part) -> Part {
    node(
        SyntaxKind::TWIG_BINARY_EXPRESSION,
        vec![
            expression(lhs),
            space(" "),
            token(kind, operator),
            expression(rhs),
        ],
    )
}

fn and(lhs: Part, rhs: Part) -> Part {
    binary(lhs, SyntaxKind::TK_AND, "and", rhs)
}

fn or(lhs: Part, rhs: Part) -> Part {
    binary(lhs, SyntaxKind::TK_OR, "or", rhs)
}

fn if_block(condition: Part) -> Part {
    node(
        SyntaxKind::TWIG_IF_BLOCK,
        vec![sign("{% if"), expression(condition), sign(" %}")],
    )
}

fn elseif_block(condition: Part) -> Part {
    node(
        SyntaxKind::TWIG_ELSE_IF_BLOCK,
        vec![sign("{% elseif"), expression(condition), sign(" %}")],
    )
}

fn else_block() -> Part {
    node(SyntaxKind::TWIG_ELSE_BLOCK, vec![sign("{% else %}")])
}

fn body(parts: Vec<Part>) -> Part {
    node(SyntaxKind::BODY, parts)
}

fn text(words: &str) -> Part {
    node(SyntaxKind::HTML_TEXT, vec![word(words)])
}

fn twig_if(mut parts: Vec<Part>) -> Part {
    parts.push(node(SyntaxKind::TWIG_ENDIF_BLOCK, vec![sign("{% endif %}")]));
    node(SyntaxKind::TWIG_IF, parts)
}

fn comment(text: &str) -> Part {
    node(
        SyntaxKind::TWIG_COMMENT,
        vec![sign("{#"), sign(text), sign("#}")],
    )
}

/// The comment `{# @deprecated tag:v6.8.0 #}`.
fn annotation() -> Part {
    comment(" @deprecated tag:v6.8.0 ")
}

fn context() -> RuleRunContext {
    let mut config = Config {
        twig: TwigConfig {
            deprecated_feature_flags: FeatureFlags::new(),
        },
    };
    config
        .twig
        .deprecated_feature_flags
        .insert("v6.8.0".into(), "v6.8.0.0".into());
    RuleRunContext::new(config)
}

/// What the rule reports for all nodes of the tree.
fn check(tree: &SyntaxTree) -> Vec<CheckResult> {
    let mut results = Vec::new();
    for node in 0..tree.len() {
        if tree.is_node(node) {
            if let Some(more) =
                RuleTwigDeprecatedFeatureGuard.check_node(tree, node, &context())
            {
                results.extend(more);
            }
        }
    }
    results
}

fn assert_unguarded(results: &[CheckResult], range: TextRange) {
    assert_eq!(results.len(), 1);
    assert_eq!(results[0].rule_name, "twig-deprecated-feature-guard");
    assert_eq!(results[0].severity, Severity::Error);
    assert_eq!(
        results[0].message,
        "deprecated Twig code is not guarded by its feature flag"
    );
    let primary = results[0].primary.as_ref().unwrap();
    assert_eq!(primary.range, range);
    assert_eq!(
        primary.message,
        "place this annotation in a branch where feature('v6.8.0.0') is false"
    );
    assert!(results[0].secondary.is_empty());
}

#[test]
fn reports_unguarded_annotation() {
    let source = "{# @deprecated tag:v6.8.0 - old output #}";
    let tree = template(
        source,
        vec![comment(" @deprecated tag:v6.8.0 - old output ")],
    );
    assert_unguarded(&check(&tree), at(source, 1, 1, 41));
}

#[test]
fn accepts_direct_and_nested_guard() {
    let tree = template(
        "{% if not feature('v6.8.0.0') %}{% if foo %}{# @deprecated tag:v6.8.0 #}{% endif %}{% endif %}",
        vec![twig_if(vec![
            if_block(not(feature("v6.8.0.0"))),
            body(vec![twig_if(vec![
                if_block(name("foo")),
                body(vec![annotation()]),
            ])]),
        ])],
    );
    assert!(check(&tree).is_empty());
}

#[test]
fn accepts_else_of_enabled_flag() {
    let tree = template(
        "{% if feature('v6.8.0.0') %}new{% else %}{# @deprecated tag:v6.8.0 #}{% endif %}",
        vec![twig_if(vec![
            if_block(feature("v6.8.0.0")),
            body(vec![text("new")]),
            else_block(),
            body(vec![annotation()]),
        ])],
    );
    assert!(check(&tree).is_empty());
}

#[test]
fn rejects_enabled_branch() {
    let source = "{% if feature('v6.8.0.0') %}{# @deprecated tag:v6.8.0 #}{% endif %}";
    let tree = template(
        source,
        vec![twig_if(vec![
            if_block(feature("v6.8.0.0")),
            body(vec![annotation()]),
        ])],
    );
    assert_unguarded(&check(&tree), at(source, 1, 29, 28));
}

#[test]
fn accepts_guarded_conjunction_but_not_disjunction() {
    let tree = template(
        "{% if not feature('v6.8.0.0') and foo %}{# @deprecated tag:v6.8.0 #}{% endif %}",
        vec![twig_if(vec![
            if_block(and(not(feature("v6.8.0.0")), name("foo"))),
            body(vec![annotation()]),
        ])],
    );
    assert!(check(&tree).is_empty());
    let source = "{% if not feature('v6.8.0.0') or foo %}{# @deprecated tag:v6.8.0 #}{% endif %}";
    let tree = template(
        source,
        vec![twig_if(vec![
            if_block(or(not(feature("v6.8.0.0")), name("foo"))),
            body(vec![annotation()]),
        ])],
    );
    assert_unguarded(&check(&tree), at(source, 1, 40, 28));
}

#[test]
fn accepts_unreachable_elseif_for_enabled_flag() {
    let tree = template(
        "{% if feature('v6.8.0.0') %}new{% elseif foo %}{# @deprecated tag:v6.8.0 #}{% endif %}",
        vec![twig_if(vec![
            if_block(feature("v6.8.0.0")),
            body(vec![text("new")]),
            elseif_block(name("foo")),
            body(vec![annotation()]),
        ])],
    );
    assert!(check(&tree).is_empty());
}

#[test]
fn accepts_negated_flag_in_elseif() {
    let tree = template(
        "{% if foo %}new{% elseif not feature('v6.8.0.0') %}{# @deprecated tag:v6.8.0 #}{% endif %}",
        vec![twig_if(vec![
            if_block(name("foo")),
            body(vec![text("new")]),
            elseif_block(not(feature("v6.8.0.0"))),
            body(vec![annotation()]),
        ])],
    );
    assert!(check(&tree).is_empty());
}

#[test]
fn ignores_unconfigured_deprecations() {
    let tree = template(
        "{# @deprecated tag:v6.9.0 #}",
        vec![comment(" @deprecated tag:v6.9.0 ")],
    );
    assert!(check(&tree).is_empty());
}

#[test]
fn guard_rule_has_its_name() {
    assert_eq!(
        RuleTwigDeprecatedFeatureGuard.name(),
        "twig-deprecated-feature-guard"
    );
}

#[test]
fn other_flags_do_not_guard() {
    let source = "{% if not feature('v6.9.0.0') %}{# @deprecated tag:v6.8.0 #}{% endif %}";
    let tree = template(
        source,
        vec![twig_if(vec![
            if_block(not(feature("v6.9.0.0"))),
            body(vec![annotation()]),
        ])],
    );
    assert_unguarded(&check(&tree), at(source, 1, 33, 28));
}

#[test]
fn else_of_unknown_condition_does_not_guard() {
    let source = "{% if foo %}{% else %}{# @deprecated tag:v6.8.0 #}{% endif %}";
    let tree = template(
        source,
        vec![twig_if(vec![
            if_block(name("foo")),
            body(vec![]),
            else_block(),
            body(vec![annotation()]),
        ])],
    );
    assert_unguarded(&check(&tree), at(source, 1, 23, 28));
}

#[test]
fn bodies_of_other_elements_do_not_guard() {
    let tree = template(
        "{# @deprecated tag:v6.8.0 #}",
        vec![node(
            SyntaxKind::TWIG_BLOCK,
            vec![body(vec![annotation()])],
        )],
    );
    assert_eq!(check(&tree).len(), 1);
}

#[test]
fn guards_cover_what_is_below() {
    let tree = template(
        "{% if false %}{# x #}{% endif %}{# y #}",
        vec![
            twig_if(vec![
                if_block(boolean("false")),
                body(vec![node(SyntaxKind::TWIG_BLOCK, vec![comment(" x ")])]),
            ]),
            comment(" y "),
        ],
    );
    let position = |kind: SyntaxKind, k: usize| {
        (0..tree.len())
            .filter(|i| tree.is_node(*i) && tree.kind(*i) == kind)
            .nth(k)
            .unwrap()
    };
    assert!(is_guarded(&tree, position(SyntaxKind::BODY, 0), "any"));
    assert!(is_guarded(&tree, position(SyntaxKind::TWIG_BLOCK, 0), "any"));
    assert!(is_guarded(&tree, position(SyntaxKind::TWIG_COMMENT, 0), "any"));
    assert!(!is_guarded(&tree, position(SyntaxKind::TWIG_COMMENT, 1), "any"));
    assert!(!is_guarded(&tree, position(SyntaxKind::TWIG_IF, 0), "any"));
    assert!(excludes_enabled_flag(&tree, position(SyntaxKind::BODY, 0), "any"));
    assert!(!excludes_enabled_flag(&tree, position(SyntaxKind::TWIG_BLOCK, 0), "any"));
    assert!(!excludes_enabled_flag(&tree, 0, "any"));
}

#[test]
fn all_bodies_after_a_true_one_are_excluded() {
    let tree = template(
        "{% if foo %}{% elseif true %}{% elseif bar %}{% else %}{% endif %}",
        vec![twig_if(vec![
            if_block(name("foo")),
            body(vec![]),
            elseif_block(boolean("true")),
            body(vec![]),
            elseif_block(name("bar")),
            body(vec![]),
            else_block(),
            body(vec![]),
        ])],
    );
    let excluded: Vec<bool> = (0..tree.len())
        .filter(|i| tree.is_node(*i) && tree.kind(*i) == SyntaxKind::BODY)
        .map(|i| excludes_enabled_flag(&tree, i, "v6.8.0.0"))
        .collect();
    assert_eq!(excluded, vec![false, false, true, true]);
}

/// What is known of a condition with the flag `f` enabled.
fn truth(condition: Part) -> Truth {
    let mut builder = rowan::GreenNodeBuilder::new();
    add(&mut builder, &expression(condition));
    let tree = SyntaxTree::from_green(&builder.finish()).unwrap();
    condition_truth(&tree, 0, "f")
}

#[test]
fn conditions_are_evaluated() {
    assert_eq!(truth(feature("f")), Truth::True);
    assert_eq!(truth(feature("g")), Truth::Unknown);
    assert_eq!(truth(name("f")), Truth::Unknown);
    assert_eq!(truth(boolean("true")), Truth::True);
    assert_eq!(truth(boolean("false")), Truth::False);
    assert_eq!(truth(boolean("maybe")), Truth::Unknown);
    assert_eq!(truth(not(feature("f"))), Truth::False);
    assert_eq!(truth(not(not(feature("f")))), Truth::True);
    assert_eq!(truth(not(name("x"))), Truth::Unknown);
    assert_eq!(truth(and(feature("f"), boolean("true"))), Truth::True);
    assert_eq!(truth(and(name("x"), boolean("false"))), Truth::False);
    assert_eq!(truth(and(name("x"), feature("f"))), Truth::Unknown);
    assert_eq!(truth(or(name("x"), feature("f"))), Truth::True);
    assert_eq!(truth(or(boolean("false"), not(feature("f")))), Truth::False);
    assert_eq!(truth(or(name("x"), boolean("false"))), Truth::Unknown);
    assert_eq!(
        truth(binary(
            feature("f"),
            SyntaxKind::OTHER(1001),
            "xor",
            feature("f")
        )),
        Truth::Unknown
    );
    assert_eq!(
        truth(node(
            SyntaxKind::TWIG_PARENTHESES_EXPRESSION,
            vec![sign("("), expression(not(feature("f"))), sign(")")]
        )),
        Truth::False
    );
}

#[test]
fn incomplete_conditions_are_unknown() {
    assert_eq!(
        truth(node(SyntaxKind::TWIG_PARENTHESES_EXPRESSION, vec![])),
        Truth::Unknown
    );
    // A sign other than `not`.
    assert_eq!(
        truth(node(
            SyntaxKind::TWIG_UNARY_EXPRESSION,
            vec![sign("-"), expression(feature("f"))]
        )),
        Truth::Unknown
    );
    assert_eq!(
        truth(node(
            SyntaxKind::TWIG_UNARY_EXPRESSION,
            vec![token(SyntaxKind::TK_NOT, "not")]
        )),
        Truth::Unknown
    );
    assert_eq!(
        truth(node(
            SyntaxKind::TWIG_BINARY_EXPRESSION,
            vec![
                expression(boolean("false")),
                token(SyntaxKind::TK_AND, "and")
            ]
        )),
        Truth::Unknown
    );
    assert_eq!(
        truth(node(
            SyntaxKind::TWIG_BINARY_EXPRESSION,
            vec![expression(boolean("true")), expression(boolean("true"))]
        )),
        Truth::Unknown
    );
    // Other functions, no argument, two arguments, an argument that is not a plain string.
    assert_eq!(
        truth(call("features", vec![expression(plain_string("f"))])),
        Truth::Unknown
    );
    assert_eq!(truth(call("feature", vec![])), Truth::Unknown);
    assert_eq!(
        truth(call(
            "feature",
            vec![
                expression(plain_string("f")),
                sign(","),
                expression(plain_string("f"))
            ]
        )),
        Truth::Unknown
    );
    assert_eq!(
        truth(call("feature", vec![plain_string("f")])),
        Truth::Unknown
    );
    assert_eq!(
        truth(call("feature", vec![expression(name("f"))])),
        Truth::Unknown
    );
    let interpolated = node(
        SyntaxKind::TWIG_LITERAL_STRING,
        vec![node(
            SyntaxKind::TWIG_LITERAL_STRING_INNER,
            vec![word("f"), node(SyntaxKind::TWIG_VAR, vec![])],
        )],
    );
    assert_eq!(
        truth(call("feature", vec![expression(interpolated)])),
        Truth::Unknown
    );
    assert_eq!(
        truth(node(SyntaxKind::TWIG_FUNCTION_CALL, vec![])),
        Truth::Unknown
    );
}

#[test]
fn truth_tables() {
    let all = [Truth::True, Truth::False, Truth::Unknown];
    assert_eq!(Truth::True.negate(), Truth::False);
    assert_eq!(Truth::False.negate(), Truth::True);
    assert_eq!(Truth::Unknown.negate(), Truth::Unknown);
    for a in all {
        assert_eq!(a.and(Truth::True), a);
        assert_eq!(a.and(Truth::False), Truth::False);
        assert_eq!(a.or(Truth::False), a);
        assert_eq!(a.or(Truth::True), Truth::True);
        assert_eq!(a.negate().negate(), a);
        for b in all {
            assert_eq!(a.and(b), b.and(a));
            assert_eq!(a.or(b), b.or(a));
            assert_eq!(a.and(b).negate(), a.negate().or(b.negate()));
            assert_eq!(a.or(b).negate(), a.negate().and(b.negate()));
        }
    }
    assert_eq!(Truth::Unknown.and(Truth::Unknown), Truth::Unknown);
    assert_eq!(Truth::Unknown.or(Truth::Unknown), Truth::Unknown);
}

#[test]
fn tags_of_annotations() {
    let tag = |text: &str| deprecation_tag(text);
    assert_eq!(tag("{# @deprecated tag:v1 #}"), Some("v1".to_string()));
    assert_eq!(tag("{#\n\t@deprecated\u{a0}tag:v1 - why #}"), Some("v1".to_string()));
    assert_eq!(tag("@deprecated tag:"), Some(String::new()));
    assert_eq!(tag("@deprecated tag:tag:x"), Some("tag:x".to_string()));
    assert_eq!(tag("{# @deprecated #}"), None);
    assert_eq!(tag("@deprecated"), None);
    assert_eq!(tag("{#@deprecated tag:v1#}"), None);
    assert_eq!(tag("tag:v1 @deprecated"), None);
    assert_eq!(tag("@deprecated see tag:v1"), None);
    // Only the first annotation counts.
    assert_eq!(tag("@deprecated @deprecated tag:v1"), None);
    assert_eq!(tag(""), None);
}

#[test]
fn body_is_judged_as_the_first_one_that_it_is_taken_for() {
    // Two bodies without text at one place: the second one is taken for the first, which runs.
    let tree = template(
        "{% if true %}{% endif %}",
        vec![twig_if(vec![
            if_block(boolean("true")),
            body(vec![]),
            body(vec![]),
        ])],
    );
    let bodies: Vec<usize> = (0..tree.len())
        .filter(|i| tree.is_node(*i) && tree.kind(*i) == SyntaxKind::BODY)
        .collect();
    assert_eq!(bodies.len(), 2);
    assert!(tree.same_node(bodies[0], bodies[1]));
    assert!(!excludes_enabled_flag(&tree, bodies[0], "any"));
    assert!(!excludes_enabled_flag(&tree, bodies[1], "any"));

    // With text the second body counts for itself.
    let tree = template(
        "{% if true %}new{% endif %}",
        vec![twig_if(vec![
            if_block(boolean("true")),
            body(vec![]),
            body(vec![text("new")]),
        ])],
    );
    let bodies: Vec<usize> = (0..tree.len())
        .filter(|i| tree.is_node(*i) && tree.kind(*i) == SyntaxKind::BODY)
        .collect();
    assert!(excludes_enabled_flag(&tree, bodies[1], "any"));
}
