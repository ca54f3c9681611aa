use ludtwig::ignore::check_for_rule_ignore;
use ludtwig::kind::{SyntaxKind, NAMED_KINDS};
use ludtwig::rule::{CheckResult, FeatureFlags, Severity};
use ludtwig::text::{
    chars_of, concat2, concat3, is_whitespace, join, same_text, split_whitespace, starts_with,
    strip_prefix, text_len, trim,
};
use ludtwig::tree::{SyntaxTree, TextRange, WalkStep};

fn raw(kind: SyntaxKind) -> u16 {
    kind.to_raw()
}

fn enter(kind: SyntaxKind) -> WalkStep {
    WalkStep::EnterNode(raw(kind))
}

fn token(kind: SyntaxKind, text: &str) -> WalkStep {
    WalkStep::EnterToken(raw(kind), text.to_string())
}

/// The walk over `ROOT { "é" BODY { "x" " " } HTML_TEXT {} "y" }`.
fn walk() -> Vec<WalkStep> {
    vec![
        enter(SyntaxKind::ROOT),
        token(SyntaxKind::TK_WORD, "é"),
        WalkStep::Leave,
        enter(SyntaxKind::BODY),
        token(SyntaxKind::TK_WORD, "x"),
        WalkStep::Leave,
        token(SyntaxKind::TK_WHITESPACE, " "),
        WalkStep::Leave,
        WalkStep::Leave,
        enter(SyntaxKind::HTML_TEXT),
        WalkStep::Leave,
        token(SyntaxKind::TK_WORD, "y"),
        WalkStep::Leave,
        WalkStep::Leave,
    ]
}

#[test]
fn tree_of_a_walk() {
    let tree = SyntaxTree::from_walk(walk()).unwrap();
    assert_eq!(tree.len(), 7);
    let kinds: Vec<SyntaxKind> = (0..7).map(|i| tree.kind(i)).collect();
    assert_eq!(
        kinds,
        vec![
            SyntaxKind::ROOT,
            SyntaxKind::TK_WORD,
            SyntaxKind::BODY,
            SyntaxKind::TK_WORD,
            SyntaxKind::TK_WHITESPACE,
            SyntaxKind::HTML_TEXT,
            SyntaxKind::TK_WORD,
        ]
    );
    let parents: Vec<Option<usize>> = (0..7).map(|i| tree.parent(i)).collect();
    assert_eq!(
        parents,
        vec![None, Some(0), Some(0), Some(2), Some(2), Some(0), Some(0)]
    );
    let ends: Vec<usize> = (0..7).map(|i| tree.end(i)).collect();
    assert_eq!(ends, vec![7, 2, 5, 4, 5, 6, 7]);
    let nodes: Vec<bool> = (0..7).map(|i| tree.is_node(i)).collect();
    assert_eq!(nodes, vec![true, false, true, false, false, true, false]);
    let ranges: Vec<(u32, u32)> = (0..7)
        .map(|i| (tree.text_range(i).start, tree.text_range(i).end))
        .collect();
    assert_eq!(
        ranges,
        vec![(0, 5), (0, 2), (2, 4), (2, 3), (3, 4), (4, 4), (4, 5)]
    );
    assert_eq!(tree.token_text(1), "é");
    assert_eq!(tree.token_text(6), "y");
}

#[test]
fn moving_around() {
    let tree = SyntaxTree::from_walk(walk()).unwrap();
    assert_eq!(tree.children_with_tokens(0), vec![1, 2, 5, 6]);
    assert_eq!(tree.children(0), vec![2, 5]);
    assert_eq!(tree.tokens(0), vec![1, 6]);
    assert_eq!(tree.children_with_tokens(2), vec![3, 4]);
    assert!(tree.children(2).is_empty());
    assert!(tree.children_with_tokens(5).is_empty());
    assert_eq!(tree.child_of_kind(0, SyntaxKind::HTML_TEXT), Some(5));
    assert_eq!(tree.child_of_kind(0, SyntaxKind::TK_WORD), None);
    assert_eq!(tree.token_of_kind(0, SyntaxKind::TK_WORD), Some(1));
    assert_eq!(tree.token_of_kind(0, SyntaxKind::BODY), None);
    assert_eq!(tree.text(0), "éx y");
    assert_eq!(tree.text(2), "x ");
    assert_eq!(tree.text(5), "");
    assert_eq!(tree.key_text(0), "é\0x\0y");
    assert_eq!(tree.key_text(2), "x");
    assert_eq!(tree.key_text(5), "");
}

#[test]
fn ranges_are_as_long_as_their_texts() {
    let tree = SyntaxTree::from_walk(walk()).unwrap();
    for i in [0, 2, 5] {
        let range = tree.text_range(i);
        assert_eq!((range.end - range.start) as usize, tree.text(i).len());
    }
}

#[test]
fn walks_that_are_not_nested_give_no_tree() {
    assert!(SyntaxTree::from_walk(vec![]).is_none());
    // Begins with a token.
    assert!(SyntaxTree::from_walk(vec![
        token(SyntaxKind::TK_WORD, "x"),
        WalkStep::Leave
    ])
    .is_none());
    // Is not left, or left twice.
    assert!(SyntaxTree::from_walk(vec![enter(SyntaxKind::ROOT)]).is_none());
    assert!(SyntaxTree::from_walk(vec![
        enter(SyntaxKind::ROOT),
        WalkStep::Leave,
        WalkStep::Leave
    ])
    .is_none());
    assert!(SyntaxTree::from_walk(vec![WalkStep::Leave]).is_none());
    // Two roots.
    assert!(SyntaxTree::from_walk(vec![
        enter(SyntaxKind::ROOT),
        WalkStep::Leave,
        enter(SyntaxKind::ROOT),
        WalkStep::Leave
    ])
    .is_none());
    // Something below a token.
    assert!(SyntaxTree::from_walk(vec![
        enter(SyntaxKind::ROOT),
        token(SyntaxKind::TK_WORD, "x"),
        enter(SyntaxKind::BODY),
        WalkStep::Leave,
        WalkStep::Leave,
        WalkStep::Leave
    ])
    .is_none());
}

#[test]
fn green_trees_are_read_as_they_are() {
    let kind = |kind: SyntaxKind| rowan::SyntaxKind(raw(kind));
    let mut builder = rowan::GreenNodeBuilder::new();
    builder.start_node(kind(SyntaxKind::ROOT));
    builder.token(kind(SyntaxKind::TK_WORD), "é");
    builder.start_node(kind(SyntaxKind::BODY));
    builder.token(kind(SyntaxKind::TK_WORD), "x");
    builder.token(kind(SyntaxKind::TK_WHITESPACE), " ");
    builder.finish_node();
    builder.start_node(kind(SyntaxKind::HTML_TEXT));
    builder.finish_node();
    builder.token(kind(SyntaxKind::TK_WORD), "y");
    builder.finish_node();
    let green = builder.finish();

    let read = SyntaxTree::from_green(&green).unwrap();
    let walked = SyntaxTree::from_walk(walk()).unwrap();
    assert_eq!(read.len(), walked.len());
    for i in 0..read.len() {
        assert_eq!(read.kind(i), walked.kind(i));
        assert_eq!(read.is_node(i), walked.is_node(i));
        assert_eq!(read.parent(i), walked.parent(i));
        assert_eq!(read.end(i), walked.end(i));
        assert_eq!(read.text_range(i), walked.text_range(i));
        if !read.is_node(i) {
            assert_eq!(read.token_text(i), walked.token_text(i));
        }
    }

    // The offsets are those of rowan itself.
    let root = rowan::cursor::SyntaxNode::new_root(green);
    let mut i = 0;
    for event in root.preorder_with_tokens() {
        if let rowan::WalkEvent::Enter(element) = event {
            let range = element.text_range();
            assert_eq!(read.text_range(i).start, u32::from(range.start()));
            assert_eq!(read.text_range(i).end, u32::from(range.end()));
            assert_eq!(raw(read.kind(i)), element.kind().0);
            i += 1;
        }
    }
    assert_eq!(i, read.len());
}

#[test]
fn ranges_contain_each_other() {
    let range = |start: u32, end: u32| TextRange { start, end };
    assert!(range(2, 8).contains_range(range(2, 8)));
    assert!(range(2, 8).contains_range(range(3, 5)));
    assert!(range(2, 8).contains_range(range(8, 8)));
    assert!(!range(2, 8).contains_range(range(1, 5)));
    assert!(!range(2, 8).contains_range(range(5, 9)));
    assert!(!range(3, 5).contains_range(range(2, 8)));
}

#[test]
fn kinds_and_their_numbers() {
    for number in 0..=u16::MAX {
        let kind = SyntaxKind::from_raw(number);
        assert_eq!(kind.to_raw(), number);
        assert_eq!(matches!(kind, SyntaxKind::OTHER(_)), number >= NAMED_KINDS);
        assert_eq!(
            kind.is_trivia(),
            kind == SyntaxKind::TK_WHITESPACE || kind == SyntaxKind::TK_LINE_BREAK
        );
    }
    assert_eq!(SyntaxKind::from_raw(0), SyntaxKind::ROOT);
    assert_eq!(SyntaxKind::TK_OR.to_raw(), NAMED_KINDS - 1);
}

#[test]
fn white_space_is_that_of_unicode() {
    for c in '\0'..=char::MAX {
        assert_eq!(is_whitespace(c), c.is_whitespace());
    }
}

#[test]
fn words_are_split_at_white_space() {
    for text in ["", " ", "a", " a  b\t", "\u{3000}ä\u{a0}ö\n\nü", "a\u{200b}b c"] {
        let words: Vec<String> = text.split_whitespace().map(str::to_string).collect();
        assert_eq!(split_whitespace(text), words);
        assert_eq!(trim(text), text.trim());
    }
}

#[test]
fn texts_are_put_together() {
    assert_eq!(concat2("ä", "b"), "äb");
    assert_eq!(concat3("ä", "", "b"), "äb");
    let parts = vec!["a".to_string(), String::new(), "b".to_string()];
    assert_eq!(join(&parts, "--"), "a----b");
    assert_eq!(join(&vec!["a".to_string()], "--"), "a");
    assert_eq!(join(&vec![], "--"), "");
    assert_eq!(chars_of("äb"), vec!['ä', 'b']);
    assert_eq!(text_len("äb"), 3);
}

#[test]
fn texts_are_compared() {
    assert!(same_text("ä", "ä"));
    assert!(!same_text("ä", "a"));
    assert!(starts_with("tag:v1", "tag:"));
    assert!(starts_with("tag:", "tag:"));
    assert!(!starts_with("tag", "tag:"));
    assert!(starts_with("ä", ""));
    assert_eq!(strip_prefix("ätag", "ä"), Some("tag".to_string()));
    assert_eq!(strip_prefix("tag", "tag"), Some(String::new()));
    assert_eq!(strip_prefix("tag", "a"), None);
}

#[test]
fn feature_flags_are_looked_up() {
    let mut flags = FeatureFlags::new();
    assert_eq!(flags.get("v1"), None);
    flags.insert("v1".to_string(), "flag-1".to_string());
    flags.insert("v2".to_string(), "flag-2".to_string());
    assert_eq!(flags.get("v1"), Some(&"flag-1".to_string()));
    assert_eq!(flags.get("v2"), Some(&"flag-2".to_string()));
    flags.insert("v1".to_string(), "other".to_string());
    assert_eq!(flags.get("v1"), Some(&"other".to_string()));
    assert_eq!(flags.get("v2"), Some(&"flag-2".to_string()));
    assert_eq!(flags.get("v"), None);
}

#[test]
fn results_collect_notes() {
    let range = |start: u32| TextRange {
        start,
        end: start + 1,
    };
    let result = CheckResult::new("rule", Severity::Error, "message")
        .primary_note(range(1), "here".to_string())
        .secondary_note(range(2), "there".to_string())
        .secondary_note(range(3), "and there".to_string());
    assert_eq!(result.rule_name, "rule");
    assert_eq!(result.severity, Severity::Error);
    assert_eq!(result.message, "message");
    let primary = result.primary.unwrap();
    assert_eq!((primary.range, primary.message.as_str()), (range(1), "here"));
    let notes: Vec<(TextRange, &str)> = result
        .secondary
        .iter()
        .map(|note| (note.range, note.message.as_str()))
        .collect();
    assert_eq!(notes, vec![(range(2), "there"), (range(3), "and there")]);
}

#[test]
fn directives_cover_the_node_after_them() {
    // Two directives, for one rule and for all, and the nodes around them.
    let tree = SyntaxTree::from_walk(vec![
        enter(SyntaxKind::ROOT),
        enter(SyntaxKind::HTML_TEXT),
        WalkStep::Leave,
        enter(SyntaxKind::LUDTWIG_DIRECTIVE_IGNORE),
        enter(SyntaxKind::LUDTWIG_DIRECTIVE_RULE_LIST),
        token(SyntaxKind::TK_WORD, "one"),
        WalkStep::Leave,
        token(SyntaxKind::TK_WORD, "two"),
        WalkStep::Leave,
        WalkStep::Leave,
        WalkStep::Leave,
        token(SyntaxKind::TK_LINE_BREAK, "\n"),
        WalkStep::Leave,
        enter(SyntaxKind::HTML_TEXT),
        WalkStep::Leave,
        enter(SyntaxKind::LUDTWIG_DIRECTIVE_IGNORE),
        WalkStep::Leave,
        enter(SyntaxKind::HTML_TEXT),
        WalkStep::Leave,
        enter(SyntaxKind::HTML_TEXT),
        WalkStep::Leave,
        WalkStep::Leave,
    ])
    .unwrap();
    let texts: Vec<usize> = (0..tree.len())
        .filter(|i| tree.kind(*i) == SyntaxKind::HTML_TEXT)
        .collect();
    let ignored = |rule: &str| -> Vec<bool> {
        texts
            .iter()
            .map(|i| check_for_rule_ignore(&tree, *i, rule))
            .collect()
    };
    assert_eq!(ignored("one"), vec![false, true, true, false]);
    assert_eq!(ignored("two"), vec![false, true, true, false]);
    assert_eq!(ignored("three"), vec![false, false, true, false]);
    assert!(!check_for_rule_ignore(&tree, 0, "one"));
}

#[test]
fn nodes_at_one_place_are_the_same_if_they_are_shared() {
    let kind = |kind: SyntaxKind| rowan::SyntaxKind(raw(kind));
    let mut builder = rowan::GreenNodeBuilder::new();
    builder.start_node(kind(SyntaxKind::ROOT));
    for text in ["", "x", "x", ""] {
        // `BODY { HTML_TEXT {} }`, then a token.
        builder.start_node(kind(SyntaxKind::BODY));
        builder.start_node(kind(SyntaxKind::HTML_TEXT));
        builder.finish_node();
        builder.finish_node();
        if !text.is_empty() {
            builder.token(kind(SyntaxKind::TK_WORD), text);
        }
    }
    builder.start_node(kind(SyntaxKind::ROOT));
    builder.finish_node();
    builder.finish_node();
    let green = builder.finish();

    let tree = SyntaxTree::from_green(&green).unwrap();
    let nodes: Vec<usize> = (0..tree.len()).filter(|i| tree.is_node(*i)).collect();
    assert_eq!(nodes, vec![0, 1, 2, 3, 4, 6, 7, 9, 10, 11]);
    let expected = [(1, 3), (2, 4)];
    let root = rowan::cursor::SyntaxNode::new_root(green);
    let elements: Vec<_> = root.descendants_with_tokens().collect();
    for i in &nodes {
        for j in &nodes {
            let same = i == j || expected.contains(&(*i, *j)) || expected.contains(&(*j, *i));
            assert_eq!(tree.same_node(*i, *j), same);
            assert_eq!(elements[*i] == elements[*j], same);
        }
    }
}

#[test]
fn nodes_that_are_not_shared_are_told_apart() {
    let kind = |kind: SyntaxKind| rowan::SyntaxKind(raw(kind));
    // The same contents as one shared node, but two green nodes.
    let body = || {
        let children: Vec<rowan::NodeOrToken<rowan::GreenNode, rowan::GreenToken>> = Vec::new();
        rowan::NodeOrToken::Node(rowan::GreenNode::new(kind(SyntaxKind::BODY), children))
    };
    let shared = body();
    let apart = rowan::GreenNode::new(kind(SyntaxKind::ROOT), vec![body(), body()]);
    let once = rowan::GreenNode::new(kind(SyntaxKind::ROOT), vec![shared.clone(), shared]);
    let tree = SyntaxTree::from_green(&apart).unwrap();
    assert!(!tree.same_node(1, 2));
    let tree = SyntaxTree::from_green(&once).unwrap();
    assert!(tree.same_node(1, 2));

    let tree = SyntaxTree::from_walk(vec![
        enter(SyntaxKind::ROOT),
        enter(SyntaxKind::BODY),
        WalkStep::Leave,
        enter(SyntaxKind::BODY),
        WalkStep::Leave,
        WalkStep::Leave,
    ])
    .unwrap();
    assert!(!tree.same_node(1, 2));
    assert!(tree.same_node(2, 2));
}
