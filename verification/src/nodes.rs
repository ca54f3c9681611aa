//! Moving around in a syntax tree: children, ancestors and texts.
use vstd::prelude::*;
use vstd::string::StringExecFns;
use crate::kind::{SyntaxKind, is_trivia_kind};
use crate::text::{
    all_lack, join, joined, joining_tells_parts_apart, nothing_and_empty, views,
};
use crate::tree::{SyntaxTree, Tree, lemma_offset_monotone, offset_of};

verus! {

/// The first position of a list for which `p` holds.
pub open spec fn first(positions: Seq<int>, p: spec_fn(int) -> bool) -> Option<int>
    decreases positions.len(),
{
    if positions.len() == 0 {
        None
    } else if p(positions[0]) {
        Some(positions[0])
    } else {
        first(positions.drop_first(), p)
    }
}

/// The positions of a list as integers.
pub open spec fn ints(positions: Seq<usize>) -> Seq<int> {
    Seq::new(positions.len(), |i: int| positions[i] as int)
}

/// A position as an integer.
pub open spec fn int_of(position: Option<usize>) -> Option<int> {
    match position {
        Some(i) => Some(i as int),
        None => None,
    }
}

impl Tree {
    /// The element at `c` and its following siblings, as far as they stand before `hi`.
    pub open spec fn siblings_from(self, c: int, hi: int) -> Seq<int>
        decreases hi - c,
    {
        if c < hi && c < self.end(c) <= hi {
            seq![c] + self.siblings_from(self.end(c), hi)
        } else {
            Seq::empty()
        }
    }

    /// The children of the node at `n`, nodes and tokens, in order.
    pub open spec fn elements(self, n: int) -> Seq<int> {
        self.siblings_from(n + 1, self.end(n))
    }

    /// The children of the node at `n` that are nodes.
    pub open spec fn child_nodes(self, n: int) -> Seq<int> {
        self.elements(n).filter(|c: int| self.is_node(c))
    }

    /// The children of the node at `n` that are tokens.
    pub open spec fn child_tokens(self, n: int) -> Seq<int> {
        self.elements(n).filter(|c: int| self.is_token(c))
    }

    /// The test for the kind `kind`.
    pub open spec fn has_kind(self, kind: SyntaxKind) -> spec_fn(int) -> bool {
        |c: int| self.kind(c) == kind
    }

    /// The first child node of the kind `kind`.
    pub open spec fn child_of_kind(self, n: int, kind: SyntaxKind) -> Option<int> {
        first(self.child_nodes(n), self.has_kind(kind))
    }

    /// The first child token of the kind `kind`.
    pub open spec fn token_of_kind(self, n: int, kind: SyntaxKind) -> Option<int> {
        first(self.child_tokens(n), self.has_kind(kind))
    }

    /// Whether the node at `a` is the element at `n` or one of its ancestors.
    pub open spec fn encloses(self, a: int, n: int) -> bool {
        self.is_node(a) && a <= n < self.end(a)
    }

    /// The text of the tokens at `lo..hi`.
    pub open spec fn text_between(self, lo: int, hi: int) -> Seq<char>
        decreases hi - lo,
    {
        if lo >= hi {
            Seq::empty()
        } else if self.is_token(hi - 1) {
            self.text_between(lo, hi - 1) + self.token_text(hi - 1)
        } else {
            self.text_between(lo, hi - 1)
        }
    }

    /// The text that the element at `n` covers.
    pub open spec fn text(self, n: int) -> Seq<char> {
        self.text_between(n, self.end(n))
    }

    /// The texts of the tokens at `lo..hi` without trivia.
    pub open spec fn words_between(self, lo: int, hi: int) -> Seq<Seq<char>>
        decreases hi - lo,
    {
        if lo >= hi {
            Seq::empty()
        } else if self.is_token(hi - 1) && !is_trivia_kind(self.kind(hi - 1)) {
            self.words_between(lo, hi - 1).push(self.token_text(hi - 1))
        } else {
            self.words_between(lo, hi - 1)
        }
    }

    /// The text of the node at `n` up to trivia: the texts of its other tokens, with NUL between.
    pub open spec fn key_text(self, n: int) -> Seq<char> {
        joined(self.words_between(n, self.end(n)), "\0"@)
    }
}

/// Two nodes have the same text up to trivia exactly if their other tokens have the same texts, as
/// long as no token contains NUL. There is one exception: no token at all is not told from a single
/// token without text.
pub proof fn keys_tell_texts_apart(t: Tree, n: int, u: Tree, m: int)
    requires
        all_lack(t.words_between(n, t.end(n)), '\0'),
        all_lack(u.words_between(m, u.end(m)), '\0'),
        !nothing_and_empty(t.words_between(n, t.end(n)), u.words_between(m, u.end(m))),
        !nothing_and_empty(u.words_between(m, u.end(m)), t.words_between(n, t.end(n))),
    ensures
        t.key_text(n) == u.key_text(m) <==> t.words_between(n, t.end(n)) == u.words_between(
            m,
            u.end(m),
        ),
{
    reveal_strlit("\0");
    assert("\0"@ == seq!['\0']);
    if t.key_text(n) == u.key_text(m) {
        joining_tells_parts_apart(
            t.words_between(n, t.end(n)),
            u.words_between(m, u.end(m)),
            '\0',
        );
    }
}

/// Filtering no entries gives none.
pub proof fn lemma_filter_nothing(s: Seq<int>, p: spec_fn(int) -> bool)
    ensures
        s.take(0).filter(p) == Seq::<int>::empty(),
{
    reveal(Seq::filter);
}

/// Filtering a list up to and with position `i`.
pub proof fn lemma_filter_step(s: Seq<int>, i: int, p: spec_fn(int) -> bool)
    requires
        0 <= i < s.len(),
    ensures
        s.take(i + 1).filter(p) == (if p(s[i]) {
            s.take(i).filter(p).push(s[i])
        } else {
            s.take(i).filter(p)
        }),
{
    reveal(Seq::filter);
    assert(s.take(i + 1).drop_last() == s.take(i));
    assert(s.take(i + 1).last() == s[i]);
}

/// A step of the search for the first match.
pub proof fn lemma_first_step(s: Seq<int>, i: int, p: spec_fn(int) -> bool)
    requires
        0 <= i < s.len(),
    ensures
        first(s.skip(i), p) == (if p(s[i]) {
            Some(s[i])
        } else {
            first(s.skip(i + 1), p)
        }),
{
    assert(s.skip(i).drop_first() == s.skip(i + 1));
}

/// What `first` finds: the first element of the list for which the test holds.
pub proof fn lemma_first(s: Seq<int>, p: spec_fn(int) -> bool)
    ensures
        match first(s, p) {
            Some(c) => exists|i: int|
                0 <= i < s.len() && #[trigger] s[i] == c && p(c) && forall|j: int|
                    0 <= j < i ==> !p(#[trigger] s[j]),
            None => forall|i: int| 0 <= i < s.len() ==> !p(#[trigger] s[i]),
        },
    decreases s.len(),
{
    if s.len() > 0 {
        let rest = s.drop_first();
        if p(s[0]) {
            assert(s[0] == s[0]);
        } else {
            lemma_first(rest, p);
            match first(rest, p) {
                Some(c) => {
                    let i = choose|i: int|
                        0 <= i < rest.len() && #[trigger] rest[i] == c && p(c) && forall|j: int|
                            0 <= j < i ==> !p(#[trigger] rest[j]);
                    assert(s[i + 1] == c);
                    assert forall|j: int| 0 <= j < i + 1 implies !p(#[trigger] s[j]) by {
                        if j > 0 {
                            assert(rest[j - 1] == s[j]);
                        }
                    }
                },
                None => {
                    assert forall|i: int| 0 <= i < s.len() implies !p(#[trigger] s[i]) by {
                        if i > 0 {
                            assert(rest[i - 1] == s[i]);
                        }
                    }
                },
            }
        }
    }
}

/// The siblings from `c` on stand in order between `c` and `hi`, and an element between them is
/// below the sibling that it follows.
proof fn lemma_siblings(t: Tree, n: int, c: int)
    requires
        t.valid(),
        t.is_node(n),
        n < c <= t.end(n),
        c < t.end(n) ==> t.parent(c) == Some(n),
    ensures
        forall|i: int|
            0 <= i < t.siblings_from(c, t.end(n)).len() ==> c <= #[trigger] t.siblings_from(
                c,
                t.end(n),
            )[i] < t.end(n) && t.parent(t.siblings_from(c, t.end(n))[i]) == Some(n),
        forall|i: int, j: int|
            0 <= i < j < t.siblings_from(c, t.end(n)).len() ==> t.siblings_from(c, t.end(n))[i]
                < t.siblings_from(c, t.end(n))[j],
        forall|m: int|
            c <= m < t.end(n) && t.parent(m) == Some(n) ==> #[trigger] t.siblings_from(
                c,
                t.end(n),
            ).contains(m),
    decreases t.end(n) - c,
{
    let hi = t.end(n);
    if c < hi {
        let e = t.end(c);
        assert(c < e <= hi);
        if e < hi {
            lemma_next_sibling(t, n, c);
        }
        lemma_siblings(t, n, e);
        let rest = t.siblings_from(e, hi);
        let all = t.siblings_from(c, hi);
        assert(all == seq![c] + rest);
        assert forall|i: int| 0 <= i < all.len() implies c <= #[trigger] all[i] < hi && t.parent(
            all[i],
        ) == Some(n) by {
            if i > 0 {
                assert(all[i] == rest[i - 1]);
            }
        }
        assert forall|i: int, j: int| 0 <= i < j < all.len() implies all[i] < all[j] by {
            assert(all[j] == rest[j - 1]);
            if i > 0 {
                assert(all[i] == rest[i - 1]);
            }
        }
        assert forall|m: int| c <= m < hi && t.parent(m) == Some(n) implies #[trigger] all.contains(
            m,
        ) by {
            if m == c {
                assert(all[0] == m);
            } else {
                // An element below `c` has its parent there too.
                if m < e {
                    assert(t.parent(m)->0 < c < m);
                    assert(t.end(c) <= m);
                }
                assert(rest.contains(m));
                let i = choose|i: int| 0 <= i < rest.len() && rest[i] == m;
                assert(all[i + 1] == m);
            }
        }
    }
}

/// What follows the last element below a child is the next child of the same node.
proof fn lemma_next_sibling(t: Tree, n: int, c: int)
    requires
        t.valid(),
        t.is_node(n),
        n < c,
        t.parent(c) == Some(n),
        t.end(c) < t.end(n),
        c < t.len(),
    ensures
        t.parent(t.end(c)) == Some(n),
{
    let e = t.end(c);
    let q = t.parent(e)->0;
    assert(0 <= q < e < t.end(q));
    if q < n {
        assert(t.end(n) <= e);
    } else if n < q {
        if q < c {
            // `q` would end after `c`, so it would be the parent of `c`, or enclose it.
            assert(t.end(q) <= c);
        } else {
            assert(t.end(q) <= t.end(c));
        }
    }
}

/// The first element below a node is its first child.
proof fn lemma_first_below(t: Tree, n: int)
    requires
        t.valid(),
        t.is_node(n),
        n + 1 < t.end(n),
    ensures
        t.parent(n + 1) == Some(n),
{
    let q = t.parent(n + 1)->0;
    assert(0 <= q < n + 1);
    if q < n {
        assert(t.end(n) <= n + 1);
    }
}

/// The children of a node stand below it in order, and they are the elements that have the node
/// as their parent.
pub proof fn lemma_elements(t: Tree, n: int)
    requires
        t.valid(),
        t.is_node(n),
    ensures
        forall|i: int|
            0 <= i < t.elements(n).len() ==> n < #[trigger] t.elements(n)[i] < t.end(n) && t.parent(
                t.elements(n)[i],
            ) == Some(n),
        forall|i: int, j: int|
            0 <= i < j < t.elements(n).len() ==> t.elements(n)[i] < t.elements(n)[j],
        forall|m: int|
            0 <= m < t.len() ==> (#[trigger] t.elements(n).contains(m) <==> t.parent(m) == Some(n)),
{
    if n + 1 < t.end(n) {
        lemma_first_below(t, n);
    }
    assert(n < t.end(n));
    lemma_siblings(t, n, n + 1);
    assert forall|m: int| 0 <= m < t.len() && t.parent(m) == Some(n) implies #[trigger] t.elements(
        n,
    ).contains(m) by {
        assert(m > 0);
        assert(n < m < t.end(n));
    }
}

/// Filtering a sorted list keeps the order, and keeps exactly the entries for which `p` holds.
pub proof fn lemma_filter_sorted(s: Seq<int>, p: spec_fn(int) -> bool)
    requires
        forall|i: int, j: int| 0 <= i < j < s.len() ==> s[i] < s[j],
    ensures
        forall|i: int, j: int| 0 <= i < j < s.filter(p).len() ==> s.filter(p)[i] < s.filter(p)[j],
        forall|i: int|
            0 <= i < s.filter(p).len() ==> p(#[trigger] s.filter(p)[i]) && s.contains(
                s.filter(p)[i],
            ),
        forall|c: int| #[trigger] s.filter(p).contains(c) <==> s.contains(c) && p(c),
    decreases s.len(),
{
    reveal(Seq::filter);
    if s.len() > 0 {
        let init = s.drop_last();
        assert forall|i: int, j: int| 0 <= i < j < init.len() implies init[i] < init[j] by {
            assert(init[i] == s[i] && init[j] == s[j]);
        }
        lemma_filter_sorted(init, p);
        let f = init.filter(p);
        let g = s.filter(p);
        assert(g == (if p(s.last()) {
            f.push(s.last())
        } else {
            f
        }));
        assert(s[s.len() - 1] == s.last());
        assert forall|i: int| 0 <= i < g.len() implies p(#[trigger] g[i]) && s.contains(g[i]) by {
            if i < f.len() {
                assert(g[i] == f[i]);
                assert(init.contains(f[i]));
                let k = choose|k: int| 0 <= k < init.len() && init[k] == f[i];
                assert(s[k] == g[i]);
            }
        }
        assert forall|i: int, j: int| 0 <= i < j < g.len() implies g[i] < g[j] by {
            assert(g[i] == f[i]);
            if j < f.len() {
                assert(g[j] == f[j]);
            } else {
                assert(init.contains(f[i]));
                let k = choose|k: int| 0 <= k < init.len() && init[k] == f[i];
                assert(s[k] < s[s.len() - 1]);
            }
        }
        assert forall|c: int| #[trigger] g.contains(c) <==> s.contains(c) && p(c) by {
            if g.contains(c) {
                let i = choose|i: int| 0 <= i < g.len() && g[i] == c;
                assert(p(g[i]) && s.contains(g[i]));
            }
            if s.contains(c) && p(c) {
                let k = choose|k: int| 0 <= k < s.len() && s[k] == c;
                if k == s.len() - 1 {
                    assert(g[g.len() - 1] == c);
                } else {
                    assert(init[k] == c);
                    assert(init.contains(c));
                    assert(f.contains(c));
                    let i = choose|i: int| 0 <= i < f.len() && f[i] == c;
                    assert(g[i] == c);
                }
            }
        }
    }
}

/// The child nodes of a node stand below it in order, and they are the nodes that have it as
/// their parent.
pub proof fn lemma_child_nodes(t: Tree, n: int)
    requires
        t.valid(),
        t.is_node(n),
    ensures
        forall|i: int|
            0 <= i < t.child_nodes(n).len() ==> n < #[trigger] t.child_nodes(n)[i] < t.end(n)
                && t.parent(t.child_nodes(n)[i]) == Some(n) && t.is_node(t.child_nodes(n)[i]),
        forall|i: int, j: int|
            0 <= i < j < t.child_nodes(n).len() ==> t.child_nodes(n)[i] < t.child_nodes(n)[j],
        forall|m: int|
            #[trigger] t.child_nodes(n).contains(m) <==> t.is_node(m) && t.parent(m) == Some(n),
{
    lemma_elements(t, n);
    lemma_filter_sorted(t.elements(n), |c: int| t.is_node(c));
    assert forall|i: int| 0 <= i < t.child_nodes(n).len() implies n < #[trigger] t.child_nodes(
        n,
    )[i] < t.end(n) && t.parent(t.child_nodes(n)[i]) == Some(n) && t.is_node(
        t.child_nodes(n)[i],
    ) by {
        assert(t.elements(n).contains(t.child_nodes(n)[i]));
    }
    assert forall|m: int| #[trigger]
        t.child_nodes(n).contains(m) <==> t.is_node(m) && t.parent(m) == Some(n) by {
        if t.is_node(m) {
            assert(t.elements(n).contains(m) <==> t.parent(m) == Some(n));
        }
    }
}

/// The child tokens of a node stand below it.
pub proof fn lemma_child_tokens(t: Tree, n: int)
    requires
        t.valid(),
        t.is_node(n),
    ensures
        forall|i: int|
            0 <= i < t.child_tokens(n).len() ==> n < #[trigger] t.child_tokens(n)[i] < t.end(n)
                && t.parent(t.child_tokens(n)[i]) == Some(n) && t.is_token(t.child_tokens(n)[i]),
        forall|i: int, j: int|
            0 <= i < j < t.child_tokens(n).len() ==> t.child_tokens(n)[i] < t.child_tokens(n)[j],
        forall|m: int|
            #[trigger] t.child_tokens(n).contains(m) <==> t.is_token(m) && t.parent(m) == Some(n),
{
    lemma_elements(t, n);
    lemma_filter_sorted(t.elements(n), |c: int| t.is_token(c));
    assert forall|m: int| #[trigger]
        t.child_tokens(n).contains(m) <==> t.is_token(m) && t.parent(m) == Some(n) by {
        if t.is_token(m) {
            assert(t.elements(n).contains(m) <==> t.parent(m) == Some(n));
        }
    }
    assert forall|i: int| 0 <= i < t.child_tokens(n).len() implies n < #[trigger] t.child_tokens(
        n,
    )[i] < t.end(n) && t.parent(t.child_tokens(n)[i]) == Some(n) && t.is_token(
        t.child_tokens(n)[i],
    ) by {
        assert(t.elements(n).contains(t.child_tokens(n)[i]));
    }
}

/// The first child node of a kind is a child node of that kind.
pub proof fn lemma_child_of_kind(t: Tree, n: int, kind: SyntaxKind)
    requires
        t.valid(),
        t.is_node(n),
    ensures
        t.child_of_kind(n, kind) matches Some(c) ==> n < c < t.end(n) && t.end(c) <= t.end(n)
            && t.parent(c) == Some(n) && t.is_node(c) && t.kind(c) == kind,
{
    lemma_child_nodes(t, n);
    lemma_first(t.child_nodes(n), t.has_kind(kind));
}

/// A node encloses an element other than itself exactly if it encloses the element's parent.
pub proof fn lemma_encloses_parent(t: Tree, a: int, n: int)
    requires
        t.valid(),
        0 <= n < t.len(),
        t.is_node(a),
    ensures
        t.encloses(a, n) <==> a == n || (t.parent(n) is Some && t.encloses(a, t.parent(n)->0)),
{
    if n > 0 {
        let q = t.parent(n)->0;
        assert(0 <= q < n < t.end(q));
        if t.encloses(a, n) && a != n && q < a {
            assert(t.end(a) <= n);
        }
        if t.encloses(a, q) && a < q {
            assert(t.end(q) <= t.end(a));
        }
    }
}

/// What encloses an element with some text has some text.
pub proof fn lemma_encloser_has_text(t: Tree, a: int, n: int)
    requires
        t.valid(),
        t.encloses(a, n),
        t.range(n).start < t.range(n).end,
    ensures
        t.range(a).start < t.range(a).end,
{
    assert(t.end(n) <= t.end(a)) by {
        if a < n {
            assert(t.entries[n].end <= t.entries[a].end);
        }
    }
    assert(t.entries[n].range.start == offset_of(t.entries, n));
    assert(t.entries[a].range.start == offset_of(t.entries, a));
    lemma_offset_monotone(t.entries, a, n);
    lemma_offset_monotone(t.entries, t.end(n), t.end(a));
}

/// A node is not taken for one that it encloses.
pub proof fn lemma_enclosed_is_another(t: Tree, a: int, n: int)
    requires
        t.valid(),
        t.is_node(n),
        t.encloses(a, n),
        t.same(a, n),
    ensures
        a == n,
{
    assert(t.alike(a, n));
    if a < n {
        assert(t.entries[n].end <= t.entries[a].end);
    }
}

/// A node that covers some text is taken for no other one.
pub proof fn text_tells_nodes_apart(t: Tree, i: int, j: int)
    requires
        t.valid(),
        t.is_node(i),
        t.is_node(j),
        t.range(i).start < t.range(i).end,
    ensures
        t.same(i, j) <==> i == j,
{
    if t.same(i, j) && i != j {
        assert(t.alike(i, j));
        let (a, b) = if i < j {
            (i, j)
        } else {
            (j, i)
        };
        assert(a < t.entries[a].end);
        if b < t.entries[a].end {
            lemma_enclosed_is_another(t, a, b);
        }
        assert(t.entries[a].range.end == offset_of(t.entries, t.end(a)));
        assert(t.entries[b].range.start == offset_of(t.entries, b));
        lemma_offset_monotone(t.entries, t.end(a), b);
    }
}

/// The children of nodes that are taken for the same are taken for the same.
pub proof fn lemma_same_children(t: Tree, c: int, y: int, x: int)
    requires
        t.valid(),
        t.is_node(c),
        t.is_node(y),
        t.same(c, y),
        t.is_node(x),
        t.parent(x) == Some(c),
    ensures
        t.is_node(x + y - c),
        t.parent(x + y - c) == Some(y),
        t.same(x, x + y - c),
        t.kind(x) == t.kind(x + y - c),
        t.range(x) == t.range(x + y - c),
{
    let k = x - c;
    let z = y + k;
    assert(x > 0);
    assert(c < x < t.end(c));
    assert(t.alike(c, y));
    assert(x == c + k && z == x + y - c);
    assert(t.alike_at(c, y, k));
    assert(t.entries[y].end <= t.len());
    assert(t.is_node(z));
    assert(t.same_at(c, y, k));
    assert(t.alike(x, z));
    let q = t.parent(z)->0;
    assert(0 <= q < z < t.end(q) && t.is_node(q));
    if q < y {
        assert(t.entries[y].end <= z);
    } else if y < q {
        let m = q - y;
        assert(t.alike_at(c, y, m));
        assert(t.parent(x)->0 < c + m < x);
        assert(t.entries[x].parent is Some && t.entries[c + m].end <= x);
    }
}

impl SyntaxTree {
    /// The children of the node at `n`, nodes and tokens, in order.
    pub fn children_with_tokens(&self, n: usize) -> (children: Vec<usize>)
        requires
            self@.valid(),
            self@.is_node(n as int),
        ensures
            ints(children@) == self@.elements(n as int),
    {
        let ghost t = self@;
        let mut children: Vec<usize> = Vec::new();
        let hi: usize = self.end(n);
        let mut c: usize = n + 1;
        while c < hi
            invariant
                t == self@,
                t.valid(),
                t.is_node(n as int),
                hi == t.end(n as int),
                n < c <= hi <= t.len(),
                ints(children@) + t.siblings_from(c as int, hi as int) == t.elements(n as int),
            decreases hi - c,
        {
            let ghost before = ints(children@);
            let ghost here = c as int;
            assert(here < t.end(here) <= hi);
            children.push(c);
            c = self.end(c);
            assert(ints(children@) == before.push(here));
            assert(before + t.siblings_from(here, hi as int) == ints(children@) + t.siblings_from(
                c as int,
                hi as int,
            ));
        }
        assert(t.siblings_from(c as int, hi as int) == Seq::<int>::empty());
        assert(ints(children@) + Seq::<int>::empty() == ints(children@));
        children
    }

    /// The children of the node at `n` that are nodes, in order.
    pub fn children(&self, n: usize) -> (children: Vec<usize>)
        requires
            self@.valid(),
            self@.is_node(n as int),
        ensures
            ints(children@) == self@.child_nodes(n as int),
    {
        let ghost t = self@;
        let ghost p = |c: int| t.is_node(c);
        let elements = self.children_with_tokens(n);
        let ghost s = t.elements(n as int);
        let mut children: Vec<usize> = Vec::new();
        let mut i: usize = 0;
        proof {
            lemma_elements(t, n as int);
            lemma_filter_nothing(s, p);
        }
        while i < elements.len()
            invariant
                i <= elements.len(),
                t == self@,
                p == |c: int| t.is_node(c),
                s == ints(elements@),
                forall|k: int| 0 <= k < s.len() ==> 0 <= #[trigger] s[k] < t.len(),
                ints(children@) == s.take(i as int).filter(p),
            decreases elements.len() - i,
        {
            let ghost before = ints(children@);
            assert(s[i as int] == elements[i as int]);
            proof {
                lemma_filter_step(s, i as int, p);
            }
            if self.is_node(elements[i]) {
                children.push(elements[i]);
                assert(ints(children@) == before.push(s[i as int]));
            }
            i += 1;
        }
        assert(s.take(i as int) == s);
        children
    }

    /// The children of the node at `n` that are tokens, in order.
    pub fn tokens(&self, n: usize) -> (children: Vec<usize>)
        requires
            self@.valid(),
            self@.is_node(n as int),
        ensures
            ints(children@) == self@.child_tokens(n as int),
    {
        let ghost t = self@;
        let ghost p = |c: int| t.is_token(c);
        let elements = self.children_with_tokens(n);
        let ghost s = t.elements(n as int);
        let mut children: Vec<usize> = Vec::new();
        let mut i: usize = 0;
        proof {
            lemma_elements(t, n as int);
            lemma_filter_nothing(s, p);
        }
        while i < elements.len()
            invariant
                i <= elements.len(),
                t == self@,
                p == |c: int| t.is_token(c),
                s == ints(elements@),
                forall|k: int| 0 <= k < s.len() ==> 0 <= #[trigger] s[k] < t.len(),
                ints(children@) == s.take(i as int).filter(p),
            decreases elements.len() - i,
        {
            let ghost before = ints(children@);
            assert(s[i as int] == elements[i as int]);
            proof {
                lemma_filter_step(s, i as int, p);
            }
            if !self.is_node(elements[i]) {
                children.push(elements[i]);
                assert(ints(children@) == before.push(s[i as int]));
            }
            i += 1;
        }
        assert(s.take(i as int) == s);
        children
    }

    /// The first of the elements at `positions` that has the kind `kind`.
    fn first_of_kind(&self, positions: &Vec<usize>, kind: SyntaxKind) -> (found: Option<usize>)
        requires
            forall|i: int| 0 <= i < positions.len() ==> #[trigger] positions[i] < self@.len(),
        ensures
            int_of(found) == first(ints(positions@), self@.has_kind(kind)),
    {
        let ghost s = ints(positions@);
        let ghost p = self@.has_kind(kind);
        let mut i: usize = 0;
        assert(s.skip(0) == s);
        while i < positions.len()
            invariant
                i <= positions.len(),
                s == ints(positions@),
                p == self@.has_kind(kind),
                forall|k: int| 0 <= k < positions.len() ==> #[trigger] positions[k] < self@.len(),
                first(s.skip(i as int), p) == first(s, p),
            decreases positions.len() - i,
        {
            proof {
                lemma_first_step(s, i as int, p);
            }
            if self.kind(positions[i]) == kind {
                return Some(positions[i]);
            }
            i += 1;
        }
        None
    }

    /// The first child node of the kind `kind`.
    pub fn child_of_kind(&self, n: usize, kind: SyntaxKind) -> (child: Option<usize>)
        requires
            self@.valid(),
            self@.is_node(n as int),
        ensures
            int_of(child) == self@.child_of_kind(n as int, kind),
            child matches Some(c) ==> self@.is_node(c as int),
    {
        let children = self.children(n);
        proof {
            lemma_child_nodes(self@, n as int);
            lemma_child_of_kind(self@, n as int, kind);
            assert forall|i: int| 0 <= i < children.len() implies #[trigger] children[i]
                < self@.len() by {
                assert(ints(children@)[i] == children[i]);
            }
        }
        self.first_of_kind(&children, kind)
    }

    /// The first child token of the kind `kind`.
    pub fn token_of_kind(&self, n: usize, kind: SyntaxKind) -> (child: Option<usize>)
        requires
            self@.valid(),
            self@.is_node(n as int),
        ensures
            int_of(child) == self@.token_of_kind(n as int, kind),
            child matches Some(c) ==> self@.is_token(c as int),
    {
        let tokens = self.tokens(n);
        proof {
            lemma_child_tokens(self@, n as int);
            lemma_first(self@.child_tokens(n as int), self@.has_kind(kind));
            assert forall|i: int| 0 <= i < tokens.len() implies #[trigger] tokens[i]
                < self@.len() by {
                assert(ints(tokens@)[i] == tokens[i]);
            }
        }
        self.first_of_kind(&tokens, kind)
    }

    /// The text that the element at `n` covers.
    pub fn text(&self, n: usize) -> (text: String)
        requires
            self@.valid(),
            n < self@.len(),
        ensures
            text@ == self@.text(n as int),
    {
        let mut text: String = String::new();
        let hi: usize = self.end(n);
        let mut i: usize = n;
        while i < hi
            invariant
                n <= i <= hi <= self@.len(),
                text@ == self@.text_between(n as int, i as int),
            decreases hi - i,
        {
            if !self.is_node(i) {
                text.append(self.token_text(i));
            }
            i += 1;
        }
        text
    }

    /// The text of the node at `n` up to trivia.
    pub fn key_text(&self, n: usize) -> (text: String)
        requires
            self@.valid(),
            n < self@.len(),
        ensures
            text@ == self@.key_text(n as int),
    {
        let mut parts: Vec<String> = Vec::new();
        let hi: usize = self.end(n);
        let mut i: usize = n;
        assert(views(parts@) == self@.words_between(n as int, n as int));
        while i < hi
            invariant
                n <= i <= hi <= self@.len(),
                views(parts@) == self@.words_between(n as int, i as int),
            decreases hi - i,
        {
            if !self.is_node(i) && !self.kind(i).is_trivia() {
                let ghost before = views(parts@);
                parts.push(self.token_text(i).to_owned());
                assert(views(parts@) == before.push(self@.token_text(i as int)));
            }
            i += 1;
        }
        join(&parts, "\0")
    }
}

} // verus!
