//! What a walk says about the tree: it determines the tree.
use vstd::prelude::*;
use crate::kind::{kind_of_raw, raw_of_kind};
use crate::text::byte_len;
use crate::tree::{
    Entry, Step, Tree, depth, enter_step, nested, offset_of, walk_of, walked_len,
};

verus! {

/// Whether the elements at `lo..hi` end there too.
spec fn ends_within(es: Seq<Entry>, lo: int, hi: int) -> bool {
    &&& 0 <= lo <= hi <= es.len()
    &&& forall|j: int| lo <= j < hi ==> j < #[trigger] es[j].end <= hi
    &&& forall|i: int, j: int|
        #![trigger es[i].end, es[j].end]
        lo <= i < j < es[i].end && j < hi ==> es[j].end <= es[i].end
}

proof fn lemma_depth_of_prefix(a: Seq<Step>, b: Seq<Step>, i: int)
    requires
        i <= a.len(),
    ensures
        depth(a + b, i) == depth(a, i),
    decreases i,
{
    if i > 0 {
        lemma_depth_of_prefix(a, b, i - 1);
        assert((a + b)[i - 1] == a[i - 1]);
    }
}

proof fn lemma_depth_of_suffix(a: Seq<Step>, b: Seq<Step>, i: int)
    requires
        0 <= i <= b.len(),
    ensures
        depth(a + b, a.len() + i) == depth(a, a.len() as int) + depth(b, i),
    decreases i,
{
    if i > 0 {
        lemma_depth_of_suffix(a, b, i - 1);
        assert((a + b)[a.len() + i - 1] == b[i - 1]);
    } else {
        lemma_depth_of_prefix(a, b, a.len() as int);
    }
}

/// A walk has two steps for each element, never leaves more than it enters, and ends at the depth
/// at which it began. The walk over one element gets back to that depth only at its end.
proof fn lemma_walk_depth(es: Seq<Entry>, lo: int, hi: int)
    requires
        ends_within(es, lo, hi),
    ensures
        walk_of(es, lo, hi).len() == 2 * (hi - lo),
        depth(walk_of(es, lo, hi), 2 * (hi - lo)) == 0,
        forall|i: int| 0 <= i <= 2 * (hi - lo) ==> #[trigger] depth(walk_of(es, lo, hi), i) >= 0,
        lo < hi ==> forall|i: int|
            0 < i < 2 * (es[lo].end - lo) ==> #[trigger] depth(walk_of(es, lo, hi), i) > 0,
        lo < hi ==> depth(walk_of(es, lo, hi), 2 * (es[lo].end - lo)) == 0,
    decreases hi - lo,
{
    if lo < hi {
        let e = es[lo].end;
        assert(lo < e <= hi);
        let inner = walk_of(es, lo + 1, e);
        let rest = walk_of(es, e, hi);
        assert forall|j: int| lo + 1 <= j < e implies j < #[trigger] es[j].end <= e by {}
        lemma_walk_depth(es, lo + 1, e);
        lemma_walk_depth(es, e, hi);
        let enter = seq![enter_step(es[lo])];
        let leave = seq![Step::Leave];
        let one = enter + inner + leave;
        let all = walk_of(es, lo, hi);
        assert(all == one + rest);
        let k = 2 * (e - lo);
        assert(one.len() == k);
        assert(depth(enter, 1) == 1) by {
            assert(depth(enter, 0) == 0);
        }
        assert forall|i: int| 0 < i < k implies depth(one, i) == 1 + depth(inner, i - 1) by {
            lemma_depth_of_prefix(enter + inner, leave, i);
            lemma_depth_of_suffix(enter, inner, i - 1);
        }
        assert(depth(one, k) == 0) by {
            lemma_depth_of_suffix(enter + inner, leave, 1);
            assert(depth(leave, 1) == -1) by {
                assert(depth(leave, 0) == 0);
            }
            lemma_depth_of_suffix(enter, inner, k - 2);
        }
        assert forall|i: int| 0 <= i <= k implies #[trigger] depth(all, i) == depth(one, i) by {
            lemma_depth_of_prefix(one, rest, i);
        }
        assert forall|i: int| k <= i <= 2 * (hi - lo) implies #[trigger] depth(all, i) == depth(
            rest,
            i - k,
        ) by {
            lemma_depth_of_suffix(one, rest, i - k);
        }
        assert forall|i: int| 0 <= i <= 2 * (hi - lo) implies #[trigger] depth(all, i) >= 0 by {
            if 0 < i < k {
                assert(depth(inner, i - 1) >= 0);
            } else if i > k {
                assert(depth(rest, i - k) >= 0);
            }
        }
        assert forall|i: int| 0 < i < k implies #[trigger] depth(all, i) > 0 by {
            assert(depth(inner, i - 1) >= 0);
        }
        assert(depth(all, 2 * (hi - lo)) == depth(rest, 2 * (hi - e)));
    }
}

/// Whether an element of two lists has the same kind, text and end in both.
spec fn alike(a: Entry, b: Entry) -> bool {
    a.kind == b.kind && a.text == b.text && a.end == b.end
}

spec fn kinds_have_names(es: Seq<Entry>) -> bool {
    forall|i: int|
        #![trigger es[i].kind]
        0 <= i < es.len() ==> kind_of_raw(raw_of_kind(es[i].kind)) == es[i].kind
}

proof fn lemma_same_walk(a: Seq<Entry>, b: Seq<Entry>, lo: int, hi: int)
    requires
        ends_within(a, lo, hi),
        ends_within(b, lo, hi),
        kinds_have_names(a),
        kinds_have_names(b),
        walk_of(a, lo, hi) == walk_of(b, lo, hi),
    ensures
        forall|i: int| lo <= i < hi ==> alike(#[trigger] a[i], b[i]),
    decreases hi - lo,
{
    if lo < hi {
        let w = walk_of(a, lo, hi);
        lemma_walk_depth(a, lo, hi);
        lemma_walk_depth(b, lo, hi);
        let e = a[lo].end;
        let f = b[lo].end;
        assert(lo < e <= hi && lo < f <= hi);
        if e < f {
            assert(depth(w, 2 * (e - lo)) > 0);
        } else if f < e {
            assert(depth(w, 2 * (f - lo)) > 0);
        }
        assert(e == f);
        assert(w[0] == enter_step(a[lo]));
        assert(w[0] == enter_step(b[lo]));
        assert(kind_of_raw(raw_of_kind(a[lo].kind)) == a[lo].kind);
        assert(kind_of_raw(raw_of_kind(b[lo].kind)) == b[lo].kind);
        assert(alike(a[lo], b[lo]));
        lemma_walk_depth(a, lo + 1, e);
        lemma_walk_depth(b, lo + 1, e);
        lemma_walk_depth(a, e, hi);
        lemma_walk_depth(b, e, hi);
        let k = 2 * (e - lo);
        assert(walk_of(a, lo + 1, e) == w.subrange(1, k - 1));
        assert(walk_of(b, lo + 1, e) == w.subrange(1, k - 1));
        assert(walk_of(a, e, hi) == w.skip(k));
        assert(walk_of(b, e, hi) == w.skip(k));
        lemma_same_walk(a, b, lo + 1, e);
        lemma_same_walk(a, b, e, hi);
    }
}

proof fn lemma_valid_ends(t: Tree)
    requires
        t.valid(),
    ensures
        ends_within(t.entries, 0, t.len()),
        kinds_have_names(t.entries),
{
    let es = t.entries;
    assert forall|j: int| 0 <= j < t.len() implies j < #[trigger] es[j].end <= t.len() by {
        assert(t.end(j) == es[j].end);
    }
    assert forall|i: int, j: int|
        #![trigger es[i].end, es[j].end]
        0 <= i < j < es[i].end && j < t.len() implies es[j].end <= es[i].end by {}
}

proof fn lemma_same_offset(a: Seq<Entry>, b: Seq<Entry>, i: int)
    requires
        i <= a.len(),
        a.len() == b.len(),
        forall|k: int| 0 <= k < a.len() ==> alike(#[trigger] a[k], b[k]),
    ensures
        offset_of(a, i) == offset_of(b, i),
    decreases i,
{
    if i > 0 {
        lemma_same_offset(a, b, i - 1);
        assert(alike(a[i - 1], b[i - 1]));
    }
}

/// Two trees with the same walk have the same elements. They are the same if the same nodes are
/// taken for one another in both.
pub proof fn walk_determines_tree(a: Tree, b: Tree)
    requires
        a.valid(),
        b.valid(),
        a.walk() == b.walk(),
    ensures
        a.entries == b.entries,
        (forall|i: int, j: int|
            a.is_node(i) && a.is_node(j) ==> #[trigger] a.same(i, j) == b.same(i, j)) ==> a == b,
{
    lemma_valid_ends(a);
    lemma_valid_ends(b);
    lemma_walk_depth(a.entries, 0, a.len());
    lemma_walk_depth(b.entries, 0, b.len());
    assert(a.len() == b.len());
    lemma_same_walk(a.entries, b.entries, 0, a.len());
    assert forall|i: int| 0 <= i < a.len() implies a.entries[i] == b.entries[i] by {
        let x = a.entries[i];
        let y = b.entries[i];
        assert(alike(a.entries[i], b.entries[i]));
        lemma_same_offset(a.entries, b.entries, i);
        lemma_same_offset(a.entries, b.entries, x.end);
        assert(a.range(i) == b.range(i)) by {
            assert(x.range.start == offset_of(a.entries, i));
            assert(y.range.start == offset_of(b.entries, i));
        }
        assert(x.parent == y.parent) by {
            if i > 0 {
                let p = x.parent->0;
                let q = y.parent->0;
                assert(x.parent is Some && 0 <= p < i < a.entries[p].end);
                assert(y.parent is Some && 0 <= q < i < b.entries[q].end);
                assert(alike(a.entries[p], b.entries[p]));
                assert(alike(a.entries[q], b.entries[q]));
                if p < q {
                    assert(a.end(q) <= i);
                } else if q < p {
                    assert(b.end(p) <= i);
                }
            }
        }
    }
    assert(a.entries == b.entries);
    if forall|i: int, j: int|
        a.is_node(i) && a.is_node(j) ==> #[trigger] a.same(i, j) == b.same(i, j) {
        assert forall|i: int| 0 <= i < a.len() implies a.leads[i] == b.leads[i] by {
            if a.is_node(i) {
                let x = a.leads[i];
                let y = b.leads[i];
                assert(a.leads[x] == x && b.leads[y] == y);
                assert(a.same(i, x) && b.same(i, y));
                assert(b.same(i, x) && a.same(i, y));
                assert(b.leads[x] <= x && a.leads[y] <= y);
            }
        }
        assert(a.leads == b.leads);
    }
}

proof fn lemma_byte_len_of_concat(a: Seq<char>, b: Seq<char>)
    ensures
        byte_len(a + b) == byte_len(a) + byte_len(b),
    decreases a.len(),
{
    if a.len() > 0 {
        lemma_byte_len_of_concat(a.drop_first(), b);
        assert((a + b).drop_first() == a.drop_first() + b);
        assert((a + b)[0] == a[0]);
    } else {
        assert(a + b == b);
    }
}

proof fn lemma_text_len(t: Tree, lo: int, hi: int)
    requires
        0 <= lo <= hi <= t.len(),
    ensures
        offset_of(t.entries, hi) == offset_of(t.entries, lo) + byte_len(t.text_between(lo, hi)),
    decreases hi - lo,
{
    if lo < hi {
        lemma_text_len(t, lo, hi - 1);
        if t.is_token(hi - 1) {
            lemma_byte_len_of_concat(t.text_between(lo, hi - 1), t.token_text(hi - 1));
        }
    } else {
        assert(vstd::utf8::encode_utf8(Seq::<char>::empty()).len() == 0);
    }
}

/// The text range of an element is as long as its text.
pub proof fn range_covers_text(t: Tree, n: int)
    requires
        t.valid(),
        0 <= n < t.len(),
    ensures
        t.range(n).end == t.range(n).start + byte_len(t.text(n)),
{
    assert(n < t.entries[n].end <= t.len());
    assert(t.entries[n].range.start == offset_of(t.entries, n));
    lemma_text_len(t, n, t.end(n));
}

/// Whether every token of a walk is left right after it is entered, before the end of the walk.
spec fn tokens_are_left(steps: Seq<Step>) -> bool {
    forall|i: int|
        0 <= i < steps.len() && #[trigger] steps[i] is EnterToken ==> i + 1 < steps.len()
            && steps[i + 1] is Leave
}

proof fn lemma_tokens_are_left(es: Seq<Entry>, lo: int, hi: int)
    requires
        ends_within(es, lo, hi),
        forall|k: int| lo <= k < hi && (#[trigger] es[k]).text is Some ==> es[k].end == k + 1,
    ensures
        tokens_are_left(walk_of(es, lo, hi)),
    decreases hi - lo,
{
    if lo < hi {
        let e = es[lo].end;
        let inner = walk_of(es, lo + 1, e);
        let rest = walk_of(es, e, hi);
        assert forall|j: int| lo + 1 <= j < e implies j < #[trigger] es[j].end <= e by {}
        lemma_tokens_are_left(es, lo + 1, e);
        lemma_tokens_are_left(es, e, hi);
        let all = walk_of(es, lo, hi);
        let n = inner.len() as int;
        assert(all == seq![enter_step(es[lo])] + inner + seq![Step::Leave] + rest);
        assert forall|i: int| 0 <= i < all.len() && #[trigger] all[i] is EnterToken implies i + 1
            < all.len() && all[i + 1] is Leave by {
            if i == 0 {
                assert(es[lo].text is Some);
                assert(n == 0) by {
                    lemma_walk_depth(es, lo + 1, e);
                }
            } else if i <= n {
                assert(inner[i - 1] == all[i]);
                assert(all[i + 1] == inner[i]);
            } else if i > n + 1 {
                assert(rest[i - n - 2] == all[i]);
                assert(all[i + 1] == rest[i - n - 1]);
            }
        }
    }
}

proof fn lemma_walked_len_of_concat(a: Seq<Step>, b: Seq<Step>, i: int)
    requires
        0 <= i <= b.len(),
    ensures
        walked_len(a + b, a.len() + i) == walked_len(a, a.len() as int) + walked_len(b, i),
    decreases a.len() + i,
{
    if i > 0 {
        lemma_walked_len_of_concat(a, b, i - 1);
        assert((a + b)[a.len() + i - 1] == b[i - 1]);
    } else if a.len() > 0 {
        let c = a.drop_last();
        lemma_walked_len_of_concat(c, seq![a.last()] + b, 0);
        assert(c + (seq![a.last()] + b) == a + b);
        lemma_walked_len_of_concat(c, seq![a.last()], 0);
        assert(c + seq![a.last()] == a);
        assert((a + b)[a.len() - 1] == a.last());
    }
}

proof fn lemma_walked_len_is_text(es: Seq<Entry>, lo: int, hi: int)
    requires
        ends_within(es, lo, hi),
    ensures
        offset_of(es, lo) + walked_len(walk_of(es, lo, hi), 2 * (hi - lo)) == offset_of(es, hi),
    decreases hi - lo,
{
    if lo < hi {
        let e = es[lo].end;
        let inner = walk_of(es, lo + 1, e);
        let rest = walk_of(es, e, hi);
        assert forall|j: int| lo + 1 <= j < e implies j < #[trigger] es[j].end <= e by {}
        lemma_walked_len_is_text(es, lo + 1, e);
        lemma_walked_len_is_text(es, e, hi);
        lemma_walk_depth(es, lo + 1, e);
        lemma_walk_depth(es, e, hi);
        let enter = seq![enter_step(es[lo])];
        let leave = seq![Step::Leave];
        let all = walk_of(es, lo, hi);
        assert(all == enter + inner + leave + rest);
        lemma_walked_len_of_concat(enter + inner + leave, rest, rest.len() as int);
        lemma_walked_len_of_concat(enter + inner, leave, 1);
        lemma_walked_len_of_concat(enter, inner, inner.len() as int);
        assert(walked_len(leave, 0) == 0 && walked_len(enter, 0) == 0);
        assert(leave[0] is Leave);
        assert(walked_len(leave, 1) == 0);
        assert(enter[0] == enter_step(es[lo]));
        assert(offset_of(es, lo + 1) == offset_of(es, lo) + walked_len(enter, 1));
    }
}

/// The walk over any tree, however deep and wide, is one that a tree can be built from: it is
/// nested and has the bytes of the tree's text.
pub proof fn every_tree_can_be_walked(t: Tree)
    requires
        t.valid(),
    ensures
        nested(t.walk()),
        t.walk().len() == 2 * t.len(),
        walked_len(t.walk(), t.walk().len() as int) == byte_len(t.text(0)),
        walked_len(t.walk(), t.walk().len() as int) <= u32::MAX,
{
    let n = t.len();
    let es = t.entries;
    lemma_valid_ends(t);
    lemma_walk_depth(es, 0, n);
    assert forall|k: int| 0 <= k < n && (#[trigger] es[k]).text is Some implies es[k].end == k
        + 1 by {
        assert(t.is_token(k) && es[k].end == t.end(k));
    }
    lemma_tokens_are_left(es, 0, n);
    lemma_walked_len_is_text(es, 0, n);
    range_covers_text(t, 0);
    assert(es[0].range.end == offset_of(es, n));
    assert(t.walk()[0] == enter_step(es[0]));
}

/// The steps that enter a node of the given kind, take the steps `inner`, and leave it.
pub open spec fn around(raw: u16, inner: Seq<Step>) -> Seq<Step> {
    seq![Step::EnterNode(raw)] + inner + seq![Step::Leave]
}

/// Whether `inner` can stand between entering and leaving a node.
spec fn fits_inside(inner: Seq<Step>) -> bool {
    &&& depth(inner, inner.len() as int) == 0
    &&& forall|i: int| 0 <= i <= inner.len() ==> #[trigger] depth(inner, i) >= 0
    &&& tokens_are_left(inner)
}

proof fn lemma_depth_around(raw: u16, inner: Seq<Step>, i: int)
    requires
        0 <= i <= inner.len(),
    ensures
        depth(around(raw, inner), i + 1) == 1 + depth(inner, i),
        depth(around(raw, inner), (inner.len() + 2) as int) == depth(inner, inner.len() as int),
{
    let enter = seq![Step::EnterNode(raw)];
    let leave = seq![Step::Leave];
    assert(depth(enter, 0) == 0);
    assert(depth(enter, 1) == 1);
    lemma_depth_of_suffix(enter, inner, i);
    lemma_depth_of_prefix(enter + inner, leave, i + 1);
    lemma_depth_of_suffix(enter, inner, inner.len() as int);
    lemma_depth_of_suffix(enter + inner, leave, 1);
    assert(depth(leave, 0) == 0);
    assert(depth(leave, 1) == -1);
}

proof fn lemma_around(raw: u16, inner: Seq<Step>)
    ensures
        nested(around(raw, inner)) <==> fits_inside(inner),
{
    let all = around(raw, inner);
    let n = inner.len() as int;
    lemma_depth_around(raw, inner, 0);
    assert(all.len() == n + 2);
    if nested(all) {
        assert forall|i: int| 0 <= i <= n implies #[trigger] depth(inner, i) >= 0 by {
            lemma_depth_around(raw, inner, i);
            assert(depth(all, i + 1) > 0);
        }
        assert forall|i: int| 0 <= i < n && #[trigger] inner[i] is EnterToken implies i + 1 < n
            && inner[i + 1] is Leave by {
            assert(all[i + 1] == inner[i]);
            assert(all[i + 2] is Leave);
            if i + 1 == n {
                assert(depth(inner, n) == depth(inner, n - 1) + 1);
                assert(depth(inner, n - 1) >= 0);
            } else {
                assert(all[i + 2] == inner[i + 1]);
            }
        }
    }
    if fits_inside(inner) {
        assert forall|i: int| 0 < i < all.len() implies #[trigger] depth(all, i) > 0 by {
            lemma_depth_around(raw, inner, i - 1);
            assert(depth(inner, i - 1) >= 0);
        }
        assert forall|i: int| 0 <= i < all.len() && #[trigger] all[i] is EnterToken implies i + 1
            < all.len() && all[i + 1] is Leave by {
            assert(all[i] == inner[i - 1]);
            assert(all[i + 1] == inner[i]);
        }
        assert(all[0] is EnterNode);
    }
}

/// Walks can be put together without end: a node can be empty, hold a token, hold any other node,
/// and hold one after the other what it can hold by itself.
pub proof fn walks_can_be_put_together(
    raw: u16,
    token: u16,
    text: Seq<char>,
    walk: Seq<Step>,
    x: Seq<Step>,
    y: Seq<Step>,
)
    ensures
        nested(around(raw, Seq::empty())),
        nested(around(raw, seq![Step::EnterToken(token, text), Step::Leave])),
        nested(walk) ==> nested(around(raw, walk)),
        nested(around(raw, x)) && nested(around(raw, y)) ==> nested(around(raw, x + y)),
{
    let none = Seq::<Step>::empty();
    lemma_around(raw, none);
    assert(depth(none, 0) == 0);
    assert(fits_inside(none));
    let one = seq![Step::EnterToken(token, text), Step::Leave];
    lemma_around(raw, one);
    assert(depth(one, 0) == 0);
    assert(depth(one, 1) == 1);
    assert(depth(one, 2) == 0);
    assert(fits_inside(one)) by {
        assert forall|i: int| 0 <= i <= one.len() implies #[trigger] depth(one, i) >= 0 by {
            assert(i == 0 || i == 1 || i == 2);
        }
    }
    if nested(walk) {
        lemma_around(raw, walk);
        assert(depth(walk, 0) == 0);
        assert forall|i: int| 0 <= i <= walk.len() implies #[trigger] depth(walk, i) >= 0 by {
            assert(i == 0 || i == walk.len() || depth(walk, i) > 0);
        }
        assert(tokens_are_left(walk));
    }
    if nested(around(raw, x)) && nested(around(raw, y)) {
        lemma_around(raw, x);
        lemma_around(raw, y);
        lemma_around(raw, x + y);
        let both = x + y;
        let k = x.len() as int;
        assert forall|i: int| 0 <= i <= both.len() implies #[trigger] depth(both, i) >= 0 by {
            if i <= k {
                lemma_depth_of_prefix(x, y, i);
            } else {
                lemma_depth_of_suffix(x, y, i - k);
                assert(depth(y, i - k) >= 0);
            }
        }
        lemma_depth_of_suffix(x, y, y.len() as int);
        assert forall|i: int| 0 <= i < both.len() && #[trigger] both[i] is EnterToken implies i + 1
            < both.len() && both[i + 1] is Leave by {
            if i < k {
                assert(x[i] == both[i]);
                assert(both[i + 1] == x[i + 1]);
            } else {
                assert(y[i - k] == both[i]);
                assert(both[i + 1] == y[i - k + 1]);
            }
        }
        assert(fits_inside(both));
    }
}

} // verus!
