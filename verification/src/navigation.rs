//! What moving around in a tree gives, said by parents, kinds and positions alone.
use vstd::prelude::*;
use crate::kind::SyntaxKind;
use crate::nodes::{
    first, lemma_child_nodes, lemma_child_tokens, lemma_encloses_parent, lemma_filter_sorted,
    lemma_first,
};
use crate::text::joined;
use crate::tree::Tree;

verus! {

/// Whether the element at `c` is a child of the node at `n` that is a node.
pub open spec fn is_child_node(t: Tree, n: int, c: int) -> bool {
    t.is_node(c) && t.parent(c) == Some(n)
}

/// Whether the element at `c` is a child of the node at `n` that is a token.
pub open spec fn is_child_token(t: Tree, n: int, c: int) -> bool {
    t.is_token(c) && t.parent(c) == Some(n)
}

/// Whether `c` is the first child node of the node at `n` that has the kind `kind`.
pub open spec fn is_first_node(t: Tree, n: int, kind: SyntaxKind, c: int) -> bool {
    &&& is_child_node(t, n, c)
    &&& t.kind(c) == kind
    &&& forall|d: int| #[trigger] is_child_node(t, n, d) && t.kind(d) == kind ==> c <= d
}

/// Whether the node at `n` has no child node of the kind `kind`.
pub open spec fn lacks_node(t: Tree, n: int, kind: SyntaxKind) -> bool {
    forall|d: int| #[trigger] is_child_node(t, n, d) ==> t.kind(d) != kind
}

/// Whether `c` is the first child token of the node at `n` that has the kind `kind`.
pub open spec fn is_first_token(t: Tree, n: int, kind: SyntaxKind, c: int) -> bool {
    &&& is_child_token(t, n, c)
    &&& t.kind(c) == kind
    &&& forall|d: int| #[trigger] is_child_token(t, n, d) && t.kind(d) == kind ==> c <= d
}

/// Whether the node at `n` has no child token of the kind `kind`.
pub open spec fn lacks_token(t: Tree, n: int, kind: SyntaxKind) -> bool {
    forall|d: int| #[trigger] is_child_token(t, n, d) ==> t.kind(d) != kind
}

/// In a sorted list, the first match is the least one.
pub proof fn lemma_first_is_least(s: Seq<int>, p: spec_fn(int) -> bool, c: int)
    requires
        forall|i: int, j: int| 0 <= i < j < s.len() ==> s[i] < s[j],
    ensures
        first(s, p) == Some(c) <==> s.contains(c) && p(c) && forall|d: int| #[trigger]
            s.contains(d) && p(d) ==> c <= d,
        first(s, p) is None <==> forall|d: int| #[trigger] s.contains(d) ==> !p(d),
{
    lemma_first(s, p);
    if let Some(x) = first(s, p) {
        let i = choose|i: int|
            0 <= i < s.len() && #[trigger] s[i] == x && p(x) && forall|j: int|
                0 <= j < i ==> !p(#[trigger] s[j]);
        assert(s.contains(x));
        assert forall|d: int| #[trigger] s.contains(d) && p(d) implies x <= d by {
            let k = choose|k: int| 0 <= k < s.len() && s[k] == d;
            if k < i {
                assert(!p(s[k]));
            } else if i < k {
                assert(s[i] < s[k]);
            }
        }
    }
}

/// `child_of_kind` finds the first child node of the kind, and finds nothing only if there is none.
pub proof fn child_of_kind_is_the_first(t: Tree, n: int, kind: SyntaxKind, c: int)
    requires
        t.valid(),
        t.is_node(n),
    ensures
        t.child_of_kind(n, kind) == Some(c) <==> is_first_node(t, n, kind, c),
        t.child_of_kind(n, kind) is None <==> lacks_node(t, n, kind),
{
    let s = t.child_nodes(n);
    let p = t.has_kind(kind);
    lemma_child_nodes(t, n);
    lemma_first_is_least(s, p, c);
    assert forall|d: int| #[trigger] is_child_node(t, n, d) == s.contains(d) by {}
    if t.child_of_kind(n, kind) == Some(c) {
        assert(is_child_node(t, n, c) == s.contains(c));
        assert forall|d: int| #[trigger] is_child_node(t, n, d) && t.kind(d) == kind implies c
            <= d by {
            assert(s.contains(d) && p(d));
        }
    }
    if is_first_node(t, n, kind, c) {
        assert forall|d: int| #[trigger] s.contains(d) && p(d) implies c <= d by {
            assert(is_child_node(t, n, d));
        }
    }
    if lacks_node(t, n, kind) {
        assert forall|d: int| #[trigger] s.contains(d) implies !p(d) by {
            assert(is_child_node(t, n, d));
        }
    }
    if t.child_of_kind(n, kind) is None {
        assert forall|d: int| #[trigger] is_child_node(t, n, d) implies t.kind(d) != kind by {
            assert(s.contains(d) && !p(d));
        }
    }
}

/// `token_of_kind` finds the first child token of the kind, and finds nothing only if there is
/// none.
pub proof fn token_of_kind_is_the_first(t: Tree, n: int, kind: SyntaxKind, c: int)
    requires
        t.valid(),
        t.is_node(n),
    ensures
        t.token_of_kind(n, kind) == Some(c) <==> is_first_token(t, n, kind, c),
        t.token_of_kind(n, kind) is None <==> lacks_token(t, n, kind),
{
    let s = t.child_tokens(n);
    let p = t.has_kind(kind);
    lemma_child_tokens(t, n);
    lemma_first_is_least(s, p, c);
    assert forall|d: int| #[trigger] is_child_token(t, n, d) == s.contains(d) by {}
    if t.token_of_kind(n, kind) == Some(c) {
        assert(is_child_token(t, n, c) == s.contains(c));
        assert forall|d: int| #[trigger] is_child_token(t, n, d) && t.kind(d) == kind implies c
            <= d by {
            assert(s.contains(d) && p(d));
        }
    }
    if is_first_token(t, n, kind, c) {
        assert forall|d: int| #[trigger] s.contains(d) && p(d) implies c <= d by {
            assert(is_child_token(t, n, d));
        }
    }
    if lacks_token(t, n, kind) {
        assert forall|d: int| #[trigger] s.contains(d) implies !p(d) by {
            assert(is_child_token(t, n, d));
        }
    }
    if t.token_of_kind(n, kind) is None {
        assert forall|d: int| #[trigger] is_child_token(t, n, d) implies t.kind(d) != kind by {
            assert(s.contains(d) && !p(d));
        }
    }
}

/// A node encloses exactly itself and what has its way up through it.
pub proof fn enclosing_goes_up(t: Tree, a: int, n: int)
    requires
        t.valid(),
        t.is_node(a),
        0 <= n < t.len(),
    ensures
        t.encloses(a, a),
        a != n ==> (t.encloses(a, n) <==> (t.parent(n) is Some && t.encloses(
            a,
            t.parent(n)->0,
        ))),
        t.encloses(0, n),
{
    lemma_encloses_parent(t, a, n);
    assert(a < t.entries[a].end);
    assert(0 < t.entries[0].end);
}

/// The text of the elements of a stretch is that of its two parts one after the other. A token has
/// its own text, and a node adds none.
pub proof fn text_goes_by_parts(t: Tree, lo: int, mid: int, hi: int)
    requires
        t.valid(),
        0 <= lo <= mid <= hi <= t.len(),
    ensures
        t.text_between(lo, hi) == t.text_between(lo, mid) + t.text_between(mid, hi),
        t.is_token(lo) ==> t.text_between(lo, lo + 1) == t.token_text(lo),
        t.is_node(lo) ==> t.text_between(lo, lo + 1) == Seq::<char>::empty(),
    decreases hi - mid,
{
    assert(t.text_between(lo, lo) == Seq::<char>::empty());
    if t.is_token(lo) {
        assert(t.text_between(lo, lo + 1) == t.token_text(lo));
    }
    if mid < hi {
        text_goes_by_parts(t, lo, mid, hi - 1);
        assert(t.text_between(lo, hi) == t.text_between(lo, mid) + t.text_between(mid, hi));
    } else {
        assert(t.text_between(lo, mid) + t.text_between(mid, hi) == t.text_between(lo, hi));
    }
}

/// The words of the elements of a stretch are those of its two parts one after the other. A token
/// is one word, unless it is white space or a line break; a node is none.
pub proof fn words_go_by_parts(t: Tree, lo: int, mid: int, hi: int)
    requires
        t.valid(),
        0 <= lo <= mid <= hi <= t.len(),
    ensures
        t.words_between(lo, hi) == t.words_between(lo, mid) + t.words_between(mid, hi),
        t.is_token(lo) && t.kind(lo) != SyntaxKind::TK_WHITESPACE && t.kind(lo)
            != SyntaxKind::TK_LINE_BREAK ==> t.words_between(lo, lo + 1) == seq![
            t.token_text(lo),
        ],
        t.is_node(lo) || t.kind(lo) == SyntaxKind::TK_WHITESPACE || t.kind(lo)
            == SyntaxKind::TK_LINE_BREAK ==> t.words_between(lo, lo + 1)
            == Seq::<Seq<char>>::empty(),
    decreases hi - mid,
{
    let none = Seq::<Seq<char>>::empty();
    assert(t.words_between(lo, lo) == none);
    assert(none.push(t.token_text(lo)) == seq![t.token_text(lo)]);
    if mid < hi {
        words_go_by_parts(t, lo, mid, hi - 1);
        assert(t.words_between(lo, hi) == t.words_between(lo, mid) + t.words_between(mid, hi));
    } else {
        assert(t.words_between(lo, mid) + t.words_between(mid, hi) == t.words_between(lo, hi));
    }
}

/// The text of a node up to trivia is that of its words, with NUL between them. The elements that
/// count are the node and all below it.
pub proof fn key_is_made_of_words(t: Tree, n: int)
    requires
        t.valid(),
        t.is_node(n),
    ensures
        t.key_text(n) == joined(t.words_between(n, t.end(n)), seq!['\0']),
        t.text(n) == t.text_between(n, t.end(n)),
        forall|m: int| n <= m < t.end(n) <==> #[trigger] t.encloses(n, m),
{
    reveal_strlit("\0");
    assert("\0"@ == seq!['\0']);
}

/// A body belongs to the last header before it: no other header stands between the two. It belongs
/// to none only if there is no header before it.
pub proof fn header_is_the_last_before(t: Tree, p: int, b: int, h: int)
    requires
        t.valid(),
        t.is_node(p),
    ensures
        t.header_of(p, b) == Some(h) <==> {
            &&& opens_branch(t, p, h)
            &&& h < b
            &&& forall|g: int| #[trigger] opens_branch(t, p, g) && g < b ==> g <= h
        },
        t.header_of(p, b) is None <==> forall|g: int| #[trigger]
            opens_branch(t, p, g) ==> b <= g,
{
    let kids = t.child_nodes(p);
    let test = t.header_test();
    let both = |c: int| c < b && test(c);
    let headers = t.children_before(p, b, test);
    lemma_child_nodes(t, p);
    lemma_filter_sorted(kids, both);
    assert(headers == kids.filter(both));
    assert forall|g: int| headers.contains(g) <==> #[trigger] opens_branch(t, p, g) && g < b by {
        assert(headers.contains(g) <==> kids.contains(g) && both(g));
        assert(kids.contains(g) <==> is_child_node(t, p, g));
    }
    if headers.len() > 0 {
        let x = headers[headers.len() - 1];
        assert(headers.contains(x));
        assert(opens_branch(t, p, x) && x < b);
        assert forall|g: int| #[trigger] opens_branch(t, p, g) && g < b implies g <= x by {
            assert(headers.contains(g));
            let i = choose|i: int| 0 <= i < headers.len() && headers[i] == g;
            if i < headers.len() - 1 {
                assert(headers[i] < headers[headers.len() - 1]);
            }
        }
    } else {
        assert forall|g: int| #[trigger] opens_branch(t, p, g) implies b <= g by {
            if g < b {
                assert(headers.contains(g));
            }
        }
    }
}

/// Whether the element at `h` opens a branch of the `if` at `p`.
pub open spec fn opens_branch(t: Tree, p: int, h: int) -> bool {
    is_child_node(t, p, h) && (t.kind(h) == SyntaxKind::TWIG_IF_BLOCK || t.kind(h)
        == SyntaxKind::TWIG_ELSE_IF_BLOCK || t.kind(h) == SyntaxKind::TWIG_ELSE_BLOCK)
}

} // verus!
