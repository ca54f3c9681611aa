//! The branches of a Twig `if`.
//!
//! The child nodes of a `TWIG_IF` are headers (`if`, `elseif` and `else` blocks) and bodies. A
//! body belongs to the last header before it.
use vstd::prelude::*;
use crate::kind::SyntaxKind;
use crate::nodes::{
    first, int_of, ints, lemma_child_nodes, lemma_filter_step, lemma_first, lemma_first_step,
    text_tells_nodes_apart,
};
use crate::tree::{SyntaxTree, Tree};

verus! {

/// Whether nodes of this kind open a branch that depends on a condition.
pub open spec fn is_condition_header(kind: SyntaxKind) -> bool {
    kind == SyntaxKind::TWIG_IF_BLOCK || kind == SyntaxKind::TWIG_ELSE_IF_BLOCK
}

/// Whether nodes of this kind open a branch.
pub open spec fn is_header(kind: SyntaxKind) -> bool {
    is_condition_header(kind) || kind == SyntaxKind::TWIG_ELSE_BLOCK
}

impl Tree {
    /// The test for headers.
    pub open spec fn header_test(self) -> spec_fn(int) -> bool {
        |c: int| is_header(self.kind(c))
    }

    /// The test for headers with a condition.
    pub open spec fn condition_header_test(self) -> spec_fn(int) -> bool {
        |c: int| is_condition_header(self.kind(c))
    }

    /// The children of the `if` at `p` before `limit` for which `test` holds.
    pub open spec fn children_before(self, p: int, limit: int, test: spec_fn(int) -> bool) -> Seq<
        int,
    > {
        self.child_nodes(p).filter(|c: int| c < limit && test(c))
    }

    /// The header that a body at `b` of the `if` at `p` belongs to.
    pub open spec fn header_of(self, p: int, b: int) -> Option<int> {
        let headers = self.children_before(p, b, self.header_test());
        if headers.len() > 0 {
            Some(headers.last())
        } else {
            None
        }
    }

    /// The test for bodies that the node at `b` is taken for.
    pub open spec fn same_body(self, b: int) -> spec_fn(int) -> bool {
        |c: int| self.kind(c) == SyntaxKind::BODY && self.same(c, b)
    }

    /// The first body of the `if` at `p` that the node at `b` is taken for.
    pub open spec fn counted_body(self, p: int, b: int) -> Option<int> {
        first(self.child_nodes(p), self.same_body(b))
    }
}

/// A body is taken for itself or for an earlier body. A node that is not a body is taken for none.
pub proof fn lemma_counted_body(t: Tree, p: int, b: int)
    requires
        t.valid(),
        t.is_node(p),
        t.is_node(b),
        t.parent(b) == Some(p),
    ensures
        match t.counted_body(p, b) {
            Some(c) => {
                &&& t.kind(b) == SyntaxKind::BODY
                &&& t.is_node(c) && t.kind(c) == SyntaxKind::BODY && t.parent(c) == Some(p)
                &&& c <= b
                &&& t.same(c, b)
            },
            None => t.kind(b) != SyntaxKind::BODY,
        },
{
    let kids = t.child_nodes(p);
    let test = t.same_body(b);
    lemma_child_nodes(t, p);
    lemma_first(kids, test);
    assert(kids.contains(b));
    let k = choose|k: int| 0 <= k < kids.len() && kids[k] == b;
    if let Some(c) = first(kids, test) {
        let i = choose|i: int|
            0 <= i < kids.len() && #[trigger] kids[i] == c && test(c) && forall|j: int|
                0 <= j < i ==> !test(#[trigger] kids[j]);
        assert(t.alike(c, b));
        assert(t.alike_at(c, b, 0));
        assert(test(kids[k]));
        if k < i {
            assert(!test(kids[k]));
        }
    } else {
        assert(!test(kids[k]));
    }
}

/// A body that covers some text is taken for itself.
pub proof fn body_with_text_counts_itself(t: Tree, p: int, b: int)
    requires
        t.valid(),
        t.is_node(p),
        t.is_node(b),
        t.parent(b) == Some(p),
        t.kind(b) == SyntaxKind::BODY,
        t.range(b).start < t.range(b).end,
    ensures
        t.counted_body(p, b) == Some(b),
{
    lemma_counted_body(t, p, b);
    text_tells_nodes_apart(t, b, t.counted_body(p, b)->0);
}

/// The first body of the `if` at `p` that the node at `b` is taken for.
pub fn find_counted_body(tree: &SyntaxTree, p: usize, b: usize) -> (body: Option<usize>)
    requires
        tree@.valid(),
        tree@.is_node(p as int),
        tree@.is_node(b as int),
    ensures
        int_of(body) == tree@.counted_body(p as int, b as int),
{
    let children = tree.children(p);
    let ghost s = tree@.child_nodes(p as int);
    let ghost test = tree@.same_body(b as int);
    let mut i: usize = 0;
    proof {
        lemma_child_nodes(tree@, p as int);
        assert(s.skip(0) == s);
    }
    while i < children.len()
        invariant
            i <= children.len(),
            tree@.valid(),
            tree@.is_node(b as int),
            s == ints(children@),
            s == tree@.child_nodes(p as int),
            test == tree@.same_body(b as int),
            forall|k: int| 0 <= k < s.len() ==> tree@.is_node(#[trigger] s[k]),
            first(s.skip(i as int), test) == first(s, test),
        decreases children.len() - i,
    {
        proof {
            lemma_first_step(s, i as int, test);
            assert(tree@.is_node(s[i as int]));
        }
        if tree.kind(children[i]) == SyntaxKind::BODY && tree.same_node(children[i], b) {
            return Some(children[i]);
        }
        i += 1;
    }
    None
}

/// In a sorted list, what stands before a limit that separates the first `i` entries from the
/// rest is found among those entries.
pub proof fn lemma_filter_below(
    s: Seq<int>,
    i: int,
    limit: int,
    test: spec_fn(int) -> bool,
)
    requires
        0 <= i <= s.len(),
        forall|k: int| 0 <= k < s.len() ==> (#[trigger] s[k] < limit <==> k < i),
    ensures
        s.filter(|c: int| c < limit && test(c)) == s.take(i).filter(test),
{
    lemma_filter_below_upto(s, i, limit, test, s.len() as int);
    assert(s.take(s.len() as int) == s);
}

proof fn lemma_filter_below_upto(
    s: Seq<int>,
    i: int,
    limit: int,
    test: spec_fn(int) -> bool,
    j: int,
)
    requires
        0 <= i <= s.len(),
        0 <= j <= s.len(),
        forall|k: int| 0 <= k < s.len() ==> (#[trigger] s[k] < limit <==> k < i),
    ensures
        s.take(j).filter(|c: int| c < limit && test(c)) == s.take(if j < i {
            j
        } else {
            i
        }).filter(test),
    decreases j,
{
    let both = |c: int| c < limit && test(c);
    if j == 0 {
        reveal(Seq::filter);
        assert(s.take(0).filter(both) == Seq::<int>::empty());
        assert(s.take(0).filter(test) == Seq::<int>::empty());
    } else {
        lemma_filter_below_upto(s, i, limit, test, j - 1);
        lemma_filter_step(s, j - 1, both);
        lemma_filter_step(s, j - 1, test);
        assert(s[j - 1] < limit <==> j - 1 < i);
    }
}

} // verus!
